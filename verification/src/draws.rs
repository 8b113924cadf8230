//! What is drawn at random, and how the samples follow from the draws.

use crate::board::GameConfig;
use crate::fleet::{covers, occupies, stands};
use crate::geometry::compatible;
use crate::heatmaps::{lemma_occupies_covered, longest_first_of};
use crate::laws::{arrangement, covered};
use crate::order::lemma_descending;
use crate::outside::{draw, seeded_state};
use crate::plain::{lemma_compatible_separate, separate};
use crate::sampling::{
    accepted, attempts_per_batch, batch_samples, count_in, drawn_fleet, estimates, fleet_weight,
    fleet_weight_at, reservoir, samples, seed_of_batch, ship_weight, ship_weight_at, weight,
};
use crate::solver::{
    hit_cells, open_ships, shows, solved, solved_in, CellState, Method, SolveResult, MC_ATTEMPTS,
};
use vstd::arithmetic::div_mod::{
    lemma_fundamental_div_mod, lemma_mul_mod_noop_left, lemma_mul_mod_noop_right, lemma_small_mod,
};
use vstd::prelude::*;

verus! {

/// The placement `i` of the next ship is separate from each of the picks.
pub open spec fn open_to(
    cfg: &GameConfig,
    ships: Seq<Seq<Seq<usize>>>,
    f: Seq<int>,
    i: int,
) -> bool {
    forall|m: int|
        0 <= m < f.len() ==> separate(
            cfg.width as int,
            cfg.gap_rule,
            ships[m][#[trigger] f[m]],
            ships[f.len() as int][i],
        )
}

/// The placements of the next ship before the `k`-th that are separate from the
/// picks.
pub open spec fn open_before(
    cfg: &GameConfig,
    ships: Seq<Seq<Seq<usize>>>,
    f: Seq<int>,
    k: int,
) -> Set<int> {
    Set::new(|i: int| 0 <= i < k && open_to(cfg, ships, f, i))
}

/// The number drawn for the placement `i`: one below its rank among the open
/// ones.
pub open spec fn draw_for(
    cfg: &GameConfig,
    ships: Seq<Seq<Seq<usize>>>,
    f: Seq<int>,
    i: int,
    state: Seq<u8>,
) -> (u32, Seq<u8>) {
    draw(state, (open_before(cfg, ships, f, i).len() + 1) as u32)
}

/// A number was drawn for each open placement in turn, from the generator in the
/// first of the states, and for no other.
pub open spec fn drawn_in_turn(
    cfg: &GameConfig,
    ships: Seq<Seq<Seq<usize>>>,
    f: Seq<int>,
    states: Seq<Seq<u8>>,
) -> bool {
    forall|i: int, j: int|
        #![trigger states[i], states[j]]
        0 <= i && j == i + 1 && j < states.len() ==> states[j] == (if open_to(cfg, ships, f, i) {
            draw_for(cfg, ships, f, i, states[i]).1
        } else {
            states[i]
        })
}

/// The last open placement for which a zero was drawn, if there is one.
pub open spec fn last_zero(
    cfg: &GameConfig,
    ships: Seq<Seq<Seq<usize>>>,
    f: Seq<int>,
    states: Seq<Seq<u8>>,
    kept: Option<int>,
) -> bool {
    match kept {
        Some(j) => {
            &&& 0 <= j < states.len() - 1
            &&& open_to(cfg, ships, f, j)
            &&& draw_for(cfg, ships, f, j, states[j]).0 == 0
            &&& forall|i: int|
                j < i < states.len() - 1 && #[trigger] open_to(cfg, ships, f, i) ==> draw_for(
                    cfg,
                    ships,
                    f,
                    i,
                    states[i],
                ).0 != 0
        },
        None => forall|i: int|
            0 <= i < states.len() - 1 && #[trigger] open_to(cfg, ships, f, i) ==> draw_for(
                cfg,
                ships,
                f,
                i,
                states[i],
            ).0 != 0,
    }
}

proof fn lemma_open_to(cfg: &GameConfig, ships: Seq<Seq<Seq<usize>>>, f: Seq<int>, i: int)
    requires
        stands(cfg, ships, f),
        f.len() < ships.len(),
        0 <= i < ships[f.len() as int].len(),
    ensures
        stands(cfg, ships, f.push(i)) <==> open_to(cfg, ships, f, i),
{
    let g = f.push(i);
    let n = f.len() as int;
    assert(g[n] == i);
    assert forall|m: int| 0 <= m < n implies (compatible(cfg, ships[m][#[trigger] f[m]], ships[n][i])
        <==> separate(cfg.width as int, cfg.gap_rule, ships[m][f[m]], ships[n][i])) by {
        lemma_compatible_separate(cfg, ships[m][f[m]], ships[n][i]);
    }
    if stands(cfg, ships, g) {
        assert forall|m: int| 0 <= m < n implies separate(
            cfg.width as int,
            cfg.gap_rule,
            ships[m][#[trigger] f[m]],
            ships[n][i],
        ) by {
            assert(g[m] == f[m]);
            assert(compatible(cfg, ships[m][g[m]], ships[n][g[n]]));
        }
    }
    if open_to(cfg, ships, f, i) {
        assert forall|a: int, b: int|
            #![trigger g[a], g[b]]
            0 <= a < b < g.len() implies compatible(cfg, ships[a][g[a]], ships[b][g[b]]) by {
            assert(g[a] == f[a]);
            if b < n {
                assert(g[b] == f[b]);
            }
        }
        assert forall|a: int| 0 <= a < g.len() implies 0 <= #[trigger] g[a] < ships[a].len() by {
            if a < n {
                assert(g[a] == f[a]);
            }
        }
    }
}

proof fn lemma_rank(
    cfg: &GameConfig,
    ships: Seq<Seq<Seq<usize>>>,
    f: Seq<int>,
    k: nat,
    state: Seq<u8>,
)
    requires
        stands(cfg, ships, f),
        f.len() < ships.len(),
        k <= ships[f.len() as int].len(),
    ensures
        open_before(cfg, ships, f, k as int).finite(),
        open_before(cfg, ships, f, k as int).len() == reservoir(cfg, ships, f, k, state).seen,
    decreases k,
{
    let now = open_before(cfg, ships, f, k as int);
    if k == 0 {
        assert(now =~= Set::empty());
    } else {
        lemma_rank(cfg, ships, f, (k - 1) as nat, state);
        lemma_open_to(cfg, ships, f, k - 1);
        let before = open_before(cfg, ships, f, k - 1);
        if open_to(cfg, ships, f, k - 1) {
            assert(now =~= before.insert(k - 1));
        } else {
            assert(now =~= before);
        }
    }
}

/// Reservoir sampling: for each placement that is separate from the picks, and
/// for no other, a number below its rank among them is drawn, in their order.
/// The pick is the last one whose number is zero. (So with evenly spread numbers
/// every one of them is equally likely.)
pub proof fn lemma_reservoir_pick(
    cfg: &GameConfig,
    ships: Seq<Seq<Seq<usize>>>,
    f: Seq<int>,
    k: nat,
    state: Seq<u8>,
)
    requires
        stands(cfg, ships, f),
        f.len() < ships.len(),
        k <= ships[f.len() as int].len(),
    ensures
        exists|states: Seq<Seq<u8>>|
            {
                &&& states.len() == k + 1
                &&& states[0] == state
                &&& states.last() == reservoir(cfg, ships, f, k, state).state
                &&& #[trigger] drawn_in_turn(cfg, ships, f, states)
                &&& last_zero(cfg, ships, f, states, reservoir(cfg, ships, f, k, state).kept)
            },
    decreases k,
{
    if k == 0 {
        let states = seq![state];
        assert(drawn_in_turn(cfg, ships, f, states));
    } else {
        let j = (k - 1) as nat;
        lemma_reservoir_pick(cfg, ships, f, j, state);
        lemma_rank(cfg, ships, f, j, state);
        lemma_open_to(cfg, ships, f, j as int);
        let prev = reservoir(cfg, ships, f, j, state);
        let now = reservoir(cfg, ships, f, k, state);
        let before = choose|states: Seq<Seq<u8>>|
            {
                &&& states.len() == j + 1
                &&& states[0] == state
                &&& states.last() == prev.state
                &&& #[trigger] drawn_in_turn(cfg, ships, f, states)
                &&& last_zero(cfg, ships, f, states, prev.kept)
            };
        let states = before.push(now.state);
        assert(states[j as int] == prev.state);
        assert forall|a: int, b: int|
            #![trigger states[a], states[b]]
            0 <= a && b == a + 1 && b < states.len() implies states[b] == (if open_to(
            cfg,
            ships,
            f,
            a,
        ) {
            draw_for(cfg, ships, f, a, states[a]).1
        } else {
            states[a]
        }) by {
            assert(states[a] == before[a]);
            if b < before.len() {
                assert(states[b] == before[b]);
            }
        }
        assert(drawn_in_turn(cfg, ships, f, states));
        assert forall|i: int| 0 <= i < before.len() - 1 implies #[trigger] before[i] == states[i] by {}
        assert(last_zero(cfg, ships, f, states, now.kept)) by {
            let d = draw_for(cfg, ships, f, j as int, states[j as int]);
            if open_to(cfg, ships, f, j as int) && d.0 == 0 {
                assert(now.kept == Some(j as int));
            } else {
                assert(now.kept == prev.kept);
                match prev.kept {
                    Some(m) => {
                        assert(states[m] == before[m]);
                        assert forall|i: int|
                            m < i < states.len() - 1 && #[trigger] open_to(
                                cfg,
                                ships,
                                f,
                                i,
                            ) implies draw_for(cfg, ships, f, i, states[i]).0 != 0 by {
                            if i < j {
                                assert(states[i] == before[i]);
                            }
                        }
                    },
                    None => {
                        assert forall|i: int|
                            0 <= i < states.len() - 1 && #[trigger] open_to(
                                cfg,
                                ships,
                                f,
                                i,
                            ) implies draw_for(cfg, ships, f, i, states[i]).0 != 0 by {
                            if i < j {
                                assert(states[i] == before[i]);
                            }
                        }
                    },
                }
            }
        }
    }
}

/// Ship `i` picked `g[i]` among all its placements, given the picks before it.
pub open spec fn picked_in_turn(
    cfg: &GameConfig,
    ships: Seq<Seq<Seq<usize>>>,
    g: Seq<int>,
    states: Seq<Seq<u8>>,
    i: int,
) -> bool {
    let r = reservoir(cfg, ships, g.take(i), ships[i].len(), states[i]);
    r.kept == Some(g[i]) && r.state == states[i + 1]
}

/// A sample is drawn ship by ship: each picks among all its placements, given the
/// picks before it and the generator as they left it. It fails only where a ship
/// has no pick.
pub proof fn lemma_drawn_in_turn(
    cfg: &GameConfig,
    ships: Seq<Seq<Seq<usize>>>,
    k: nat,
    state: Seq<u8>,
)
    requires
        k <= ships.len(),
    ensures
        exists|g: Seq<int>, states: Seq<Seq<u8>>|
            {
                let drawn = drawn_fleet(cfg, ships, k, state);
                &&& #[trigger] states.len() == #[trigger] g.len() + 1
                &&& states[0] == state
                &&& forall|i: int|
                    0 <= i < g.len() ==> #[trigger] picked_in_turn(cfg, ships, g, states, i)
                &&& match drawn.0 {
                    Some(f) => g == f && g.len() == k && drawn.1 == states.last(),
                    None => {
                        let r = reservoir(
                            cfg,
                            ships,
                            g,
                            ships[g.len() as int].len(),
                            states.last(),
                        );
                        g.len() < k && r.kept is None && r.state == drawn.1
                    },
                }
            },
    decreases k,
{
    let drawn = drawn_fleet(cfg, ships, k, state);
    if k == 0 {
        let g = Seq::<int>::empty();
        let states = seq![state];
        assert(states.len() == g.len() + 1);
    } else {
        lemma_drawn_in_turn(cfg, ships, (k - 1) as nat, state);
        let prev = drawn_fleet(cfg, ships, (k - 1) as nat, state);
        let (g, states) = choose|g: Seq<int>, states: Seq<Seq<u8>>|
            {
                &&& #[trigger] states.len() == #[trigger] g.len() + 1
                &&& states[0] == state
                &&& forall|i: int|
                    0 <= i < g.len() ==> #[trigger] picked_in_turn(cfg, ships, g, states, i)
                &&& match prev.0 {
                    Some(f) => g == f && g.len() == k - 1 && prev.1 == states.last(),
                    None => {
                        let r = reservoir(
                            cfg,
                            ships,
                            g,
                            ships[g.len() as int].len(),
                            states.last(),
                        );
                        g.len() < k - 1 && r.kept is None && r.state == prev.1
                    },
                }
            };
        if let Some(f) = prev.0 {
            let r = reservoir(cfg, ships, f, ships[k - 1].len(), prev.1);
            if let Some(j) = r.kept {
                let g2 = g.push(j);
                let states2 = states.push(r.state);
                assert forall|i: int| 0 <= i < g2.len() implies #[trigger] picked_in_turn(
                    cfg,
                    ships,
                    g2,
                    states2,
                    i,
                ) by {
                    if i < g.len() {
                        assert(picked_in_turn(cfg, ships, g, states, i));
                        assert(g2.take(i) =~= g.take(i));
                    } else {
                        assert(g2.take(i) =~= g);
                    }
                }
                assert(states2.len() == g2.len() + 1);
            }
        }
    }
}

/// The fleets drawn in one attempt after the other, as the generator goes on.
pub open spec fn attempts_in_turn(
    cfg: &GameConfig,
    ships: Seq<Seq<Seq<usize>>>,
    drawn: Seq<Option<Seq<int>>>,
    states: Seq<Seq<u8>>,
) -> bool {
    &&& states.len() == drawn.len() + 1
    &&& forall|t: int|
        #![trigger drawn[t]]
        0 <= t < drawn.len() ==> (drawn[t], states[t + 1]) == drawn_fleet(
            cfg,
            ships,
            ships.len(),
            states[t],
        )
}

/// A fleet was drawn, and it covers every hit.
pub open spec fn acceptable(
    ships: Seq<Seq<Seq<usize>>>,
    hits: Seq<usize>,
    drawn: Option<Seq<int>>,
) -> bool {
    drawn matches Some(f) && forall|k: int|
        0 <= k < hits.len() ==> covered(arrangement(ships, f), #[trigger] hits[k])
}

proof fn lemma_acceptable(ships: Seq<Seq<Seq<usize>>>, hits: Seq<usize>, f: Seq<int>)
    ensures
        acceptable(ships, hits, Some(f)) <==> covers(ships, f, hits),
{
    assert forall|k: int| 0 <= k < hits.len() implies occupies(ships, f, #[trigger] hits[k])
        == covered(arrangement(ships, f), hits[k]) by {
        lemma_occupies_covered(ships, f, hits[k]);
    }
}

/// The accepted samples are those of the fleets drawn, attempt by attempt, that
/// cover every hit: all of them, in their order.
pub proof fn lemma_accepted_samples(
    cfg: &GameConfig,
    ships: Seq<Seq<Seq<usize>>>,
    hits: Seq<usize>,
    attempts: nat,
    state: Seq<u8>,
)
    ensures
        exists|drawn: Seq<Option<Seq<int>>>, states: Seq<Seq<u8>>|
            {
                let result = accepted(cfg, ships, hits, attempts, state);
                &&& #[trigger] attempts_in_turn(cfg, ships, drawn, states)
                &&& drawn.len() == attempts
                &&& states[0] == state
                &&& states.last() == result.1
                &&& result.0 == drawn.filter(
                    |d: Option<Seq<int>>| acceptable(ships, hits, d),
                ).map_values(|d: Option<Seq<int>>| d->0)
            },
    decreases attempts,
{
    let ok = |d: Option<Seq<int>>| acceptable(ships, hits, d);
    let get = |d: Option<Seq<int>>| d->0;
    let result = accepted(cfg, ships, hits, attempts, state);
    if attempts == 0 {
        let drawn = Seq::<Option<Seq<int>>>::empty();
        let states = seq![state];
        drawn.lemma_filter_len(ok);
        assert(drawn.filter(ok).map_values(get) =~= Seq::empty());
        assert(attempts_in_turn(cfg, ships, drawn, states));
    } else {
        lemma_accepted_samples(cfg, ships, hits, (attempts - 1) as nat, state);
        let prev = accepted(cfg, ships, hits, (attempts - 1) as nat, state);
        let (drawn, states) = choose|drawn: Seq<Option<Seq<int>>>, states: Seq<Seq<u8>>|
            {
                &&& #[trigger] attempts_in_turn(cfg, ships, drawn, states)
                &&& drawn.len() == attempts - 1
                &&& states[0] == state
                &&& states.last() == prev.1
                &&& prev.0 == drawn.filter(
                    |d: Option<Seq<int>>| acceptable(ships, hits, d),
                ).map_values(|d: Option<Seq<int>>| d->0)
            };
        let d = drawn_fleet(cfg, ships, ships.len(), prev.1);
        let drawn2 = drawn.push(d.0);
        let states2 = states.push(d.1);
        assert(attempts_in_turn(cfg, ships, drawn2, states2)) by {
            assert forall|t: int|
                #![trigger drawn2[t]]
                0 <= t < drawn2.len() implies (drawn2[t], states2[t + 1]) == drawn_fleet(
                cfg,
                ships,
                ships.len(),
                states2[t],
            ) by {
                if t < drawn.len() {
                    assert(drawn2[t] == drawn[t]);
                    assert(states2[t] == states[t] && states2[t + 1] == states[t + 1]);
                }
            }
        }
        drawn.lemma_filter_push(d.0, ok);
        if let Some(f) = d.0 {
            lemma_acceptable(ships, hits, f);
        }
        assert(drawn.filter(ok).push(d.0).map_values(get) =~= drawn.filter(ok).map_values(get).push(
            get(d.0),
        ));
        assert(result.0 == drawn2.filter(ok).map_values(get));
    }
}

/// The samples from `starts[b]` to `starts[b + 1]` are those of batch `b`, from a
/// generator with the batch's own seed.
pub open spec fn batch_stands_at(
    cfg: &GameConfig,
    ships: Seq<Seq<Seq<usize>>>,
    hits: Seq<usize>,
    per: nat,
    s: Seq<Seq<int>>,
    starts: Seq<int>,
    b: int,
) -> bool {
    let state = seeded_state(seed_of_batch(b as u64, hits.len() as u64, ships.len() as u64));
    &&& 0 <= starts[b] <= starts[b + 1] <= s.len()
    &&& s.subrange(starts[b], starts[b + 1]) == accepted(cfg, ships, hits, per, state).0
}

/// The samples are those of the batches, one batch after the other.
pub open spec fn batches_in_turn(
    cfg: &GameConfig,
    ships: Seq<Seq<Seq<usize>>>,
    hits: Seq<usize>,
    per: nat,
    batches: nat,
    s: Seq<Seq<int>>,
    starts: Seq<int>,
) -> bool {
    &&& starts.len() == batches + 1
    &&& starts[0] == 0
    &&& starts[batches as int] == s.len()
    &&& forall|b: int|
        0 <= b < batches ==> #[trigger] batch_stands_at(cfg, ships, hits, per, s, starts, b)
}

/// The samples of a run are those of its batches, one batch after the other, each
/// from a generator with the batch's own seed.
pub proof fn lemma_batches_in_turn(
    cfg: &GameConfig,
    ships: Seq<Seq<Seq<usize>>>,
    hits: Seq<usize>,
    per: nat,
    batches: nat,
)
    ensures
        exists|starts: Seq<int>| #[trigger]
            batches_in_turn(
                cfg,
                ships,
                hits,
                per,
                batches,
                samples(cfg, ships, hits, per, batches),
                starts,
            ),
    decreases batches,
{
    let s = samples(cfg, ships, hits, per, batches);
    if batches == 0 {
        assert(batches_in_turn(cfg, ships, hits, per, batches, s, seq![0int]));
    } else {
        let n = (batches - 1) as nat;
        lemma_batches_in_turn(cfg, ships, hits, per, n);
        let t = samples(cfg, ships, hits, per, n);
        let before = choose|starts: Seq<int>| #[trigger]
            batches_in_turn(cfg, ships, hits, per, n, t, starts);
        let last = batch_samples(cfg, ships, hits, per, n as u64);
        let starts = before.push(s.len() as int);
        assert(s == t + last);
        assert forall|b: int| 0 <= b < batches implies #[trigger] batch_stands_at(
            cfg,
            ships,
            hits,
            per,
            s,
            starts,
            b,
        ) by {
            if b < n {
                assert(batch_stands_at(cfg, ships, hits, per, t, before, b));
                assert(s.subrange(starts[b], starts[b + 1]) =~= t.subrange(
                    before[b],
                    before[b + 1],
                ));
            } else {
                assert(s.subrange(starts[b], starts[b + 1]) =~= last);
            }
        }
        assert(batches_in_turn(cfg, ships, hits, per, batches, s, starts));
    }
}

/// The seed of a batch is made of its number, the number of hits and the number
/// of ships; batches of one run have different seeds.
pub proof fn lemma_batch_seeds(a: u64, b: u64, hits: u64, ships: u64)
    ensures
        seed_of_batch(a, hits, ships) == 0x9E3779B97F4A7C15u64 ^ ((a * 0x100000001B3)
            % 0x1_0000_0000_0000_0000) as u64 ^ ((hits * 0x2545F4914F6CDD1D)
            % 0x1_0000_0000_0000_0000) as u64 ^ ((ships * 31) % 0x1_0000_0000_0000_0000) as u64,
        seed_of_batch(a, hits, ships) == seed_of_batch(b, hits, ships) ==> a == b,
{
    let m = 0x1_0000_0000_0000_0000int;
    let k = 0x100000001B3int;
    let x = ((a * k) % m) as u64;
    let y = ((b * k) % m) as u64;
    let p = 0x9E3779B97F4A7C15u64;
    let q = ((hits * 0x2545F4914F6CDD1D) % m) as u64;
    let r = ((ships * 31) % m) as u64;
    assert(seed_of_batch(a, hits, ships) == p ^ x ^ q ^ r);
    assert(seed_of_batch(b, hits, ships) == p ^ y ^ q ^ r);
    if seed_of_batch(a, hits, ships) == seed_of_batch(b, hits, ships) {
        assert(x == y) by (bit_vector)
            requires
                p ^ x ^ q ^ r == p ^ y ^ q ^ r,
        ;
        // The factor is odd, so it can be undone.
        let inv = 14886173955864302971int;
        lemma_undo(a as int, k, inv, m);
        lemma_undo(b as int, k, inv, m);
    }
}

proof fn lemma_undo(a: int, k: int, inv: int, m: int)
    requires
        0 <= a < m,
        0 < k,
        0 < inv,
        1 < m,
        (k * inv) % m == 1,
    ensures
        (((a * k) % m) * inv) % m == a,
{
    lemma_mul_mod_noop_left(a * k, inv, m);
    assert((a * k) * inv == a * (k * inv)) by (nonlinear_arith);
    lemma_mul_mod_noop_right(a, k * inv, m);
    assert(a * 1 == a);
    lemma_small_mod(a as nat, m as nat);
}

/// How many samples cover the cell.
pub open spec fn covering(
    ships: Seq<Seq<Seq<usize>>>,
    s: Seq<Seq<int>>,
    c: usize,
) -> Set<int> {
    Set::new(|i: int| 0 <= i < s.len() && covered(arrangement(ships, s[i]), c))
}

proof fn lemma_covering(ships: Seq<Seq<Seq<usize>>>, s: Seq<Seq<int>>, c: usize)
    ensures
        covering(ships, s, c).finite(),
        covering(ships, s, c).len() == count_in(ships, s, c),
    decreases s.len(),
{
    let now = covering(ships, s, c);
    if s.len() == 0 {
        assert(now =~= Set::empty());
    } else {
        let t = s.drop_last();
        let n = t.len() as int;
        lemma_covering(ships, t, c);
        lemma_occupies_covered(ships, s.last(), c);
        let before = covering(ships, t, c);
        assert forall|i: int| 0 <= i < n implies t[i] == s[i] by {}
        if occupies(ships, s.last(), c) {
            assert(now =~= before.insert(n));
        } else {
            assert(now =~= before);
        }
    }
}

/// The placements of the first `m` ships, by ship and index, for which `wanted`
/// holds.
pub open spec fn placements_where(
    ships: Seq<Seq<Seq<usize>>>,
    m: int,
    wanted: spec_fn(Seq<usize>) -> bool,
) -> Set<(int, int)> {
    Set::new(
        |ij: (int, int)|
            0 <= ij.0 < m && 0 <= ij.1 < ships[ij.0].len() && wanted(ships[ij.0][ij.1]),
    )
}

/// The placement lies on a hit.
pub open spec fn on_a_hit(hits: Seq<usize>, p: Seq<usize>) -> bool {
    exists|k: int| 0 <= k < p.len() && hits.contains(#[trigger] p[k])
}

proof fn lemma_weight(hits: Seq<usize>, p: Seq<usize>)
    ensures
        weight(p, hits) == (if on_a_hit(hits, p) {
            4nat
        } else {
            1nat
        }),
{
    if on_a_hit(hits, p) {
        let k = choose|k: int| 0 <= k < p.len() && hits.contains(#[trigger] p[k]);
        let h = choose|h: int| 0 <= h < hits.len() && hits[h] == p[k];
        assert(p.contains(hits[h]));
    }
    if exists|k: int| 0 <= k < hits.len() && p.contains(#[trigger] hits[k]) {
        let h = choose|h: int| 0 <= h < hits.len() && p.contains(#[trigger] hits[h]);
        let k = choose|k: int| 0 <= k < p.len() && p[k] == hits[h];
        assert(hits.contains(p[k]));
    }
}

/// The placements of ship `i` before the `k`-th for which `wanted` holds, added
/// to those of the ships before it.
spec fn so_far(
    ships: Seq<Seq<Seq<usize>>>,
    i: int,
    k: int,
    wanted: spec_fn(Seq<usize>) -> bool,
) -> Set<(int, int)> {
    placements_where(ships, i, wanted).union(
        Set::new(|ij: (int, int)| ij.0 == i && 0 <= ij.1 < k && wanted(ships[i][ij.1])),
    )
}

proof fn lemma_so_far(
    ships: Seq<Seq<Seq<usize>>>,
    i: int,
    k: nat,
    wanted: spec_fn(Seq<usize>) -> bool,
)
    requires
        0 <= i,
        placements_where(ships, i, wanted).finite(),
    ensures
        so_far(ships, i, k as int, wanted).finite(),
        so_far(ships, i, 0, wanted) == placements_where(ships, i, wanted),
        k > 0 ==> so_far(ships, i, k as int, wanted).len() == so_far(
            ships,
            i,
            k - 1,
            wanted,
        ).len() + (if wanted(ships[i][k - 1]) {
            1int
        } else {
            0int
        }),
    decreases k,
{
    assert(so_far(ships, i, 0, wanted) =~= placements_where(ships, i, wanted));
    if k > 0 {
        lemma_so_far(ships, i, (k - 1) as nat, wanted);
        let before = so_far(ships, i, k - 1, wanted);
        let now = so_far(ships, i, k as int, wanted);
        if wanted(ships[i][k - 1]) {
            assert(now =~= before.insert((i, k - 1)));
            assert(!before.contains((i, k - 1)));
        } else {
            assert(now =~= before);
        }
    }
}

proof fn lemma_ship_weight_counts(
    ships: Seq<Seq<Seq<usize>>>,
    hits: Seq<usize>,
    i: int,
    k: nat,
    c: usize,
)
    requires
        0 <= i,
        placements_where(ships, i, |p: Seq<usize>| true).finite(),
        placements_where(ships, i, |p: Seq<usize>| on_a_hit(hits, p)).finite(),
        placements_where(ships, i, |p: Seq<usize>| p.contains(c)).finite(),
        placements_where(ships, i, |p: Seq<usize>| p.contains(c) && on_a_hit(hits, p)).finite(),
    ensures
        ship_weight(ships[i], hits, k) == so_far(
            ships,
            i,
            k as int,
            |p: Seq<usize>| true,
        ).len() - placements_where(ships, i, |p: Seq<usize>| true).len() + 3 * (so_far(
            ships,
            i,
            k as int,
            |p: Seq<usize>| on_a_hit(hits, p),
        ).len() - placements_where(ships, i, |p: Seq<usize>| on_a_hit(hits, p)).len()),
        ship_weight_at(ships[i], hits, k, c) == so_far(
            ships,
            i,
            k as int,
            |p: Seq<usize>| p.contains(c),
        ).len() - placements_where(ships, i, |p: Seq<usize>| p.contains(c)).len() + 3 * (so_far(
            ships,
            i,
            k as int,
            |p: Seq<usize>| p.contains(c) && on_a_hit(hits, p),
        ).len() - placements_where(
            ships,
            i,
            |p: Seq<usize>| p.contains(c) && on_a_hit(hits, p),
        ).len()),
    decreases k,
{
    lemma_so_far(ships, i, k, |p: Seq<usize>| true);
    lemma_so_far(ships, i, k, |p: Seq<usize>| on_a_hit(hits, p));
    lemma_so_far(ships, i, k, |p: Seq<usize>| p.contains(c));
    lemma_so_far(ships, i, k, |p: Seq<usize>| p.contains(c) && on_a_hit(hits, p));
    if k > 0 {
        lemma_ship_weight_counts(ships, hits, i, (k - 1) as nat, c);
        lemma_weight(hits, ships[i][k - 1]);
    }
}

/// The weight of the placements: one for each, and three more for each that lies
/// on a hit.
pub proof fn lemma_weights_count(
    ships: Seq<Seq<Seq<usize>>>,
    hits: Seq<usize>,
    m: nat,
    c: usize,
)
    requires
        m <= ships.len(),
    ensures
        placements_where(ships, m as int, |p: Seq<usize>| true).finite(),
        placements_where(ships, m as int, |p: Seq<usize>| on_a_hit(hits, p)).finite(),
        placements_where(ships, m as int, |p: Seq<usize>| p.contains(c)).finite(),
        placements_where(
            ships,
            m as int,
            |p: Seq<usize>| p.contains(c) && on_a_hit(hits, p),
        ).finite(),
        fleet_weight(ships, hits, m) == placements_where(
            ships,
            m as int,
            |p: Seq<usize>| true,
        ).len() + 3 * placements_where(
            ships,
            m as int,
            |p: Seq<usize>| on_a_hit(hits, p),
        ).len(),
        fleet_weight_at(ships, hits, m, c) == placements_where(
            ships,
            m as int,
            |p: Seq<usize>| p.contains(c),
        ).len() + 3 * placements_where(
            ships,
            m as int,
            |p: Seq<usize>| p.contains(c) && on_a_hit(hits, p),
        ).len(),
    decreases m,
{
    let all = |p: Seq<usize>| true;
    let hit = |p: Seq<usize>| on_a_hit(hits, p);
    let here = |p: Seq<usize>| p.contains(c);
    let both = |p: Seq<usize>| p.contains(c) && on_a_hit(hits, p);
    if m == 0 {
        assert(placements_where(ships, 0, all) =~= Set::empty());
        assert(placements_where(ships, 0, hit) =~= Set::empty());
        assert(placements_where(ships, 0, here) =~= Set::empty());
        assert(placements_where(ships, 0, both) =~= Set::empty());
    } else {
        let i = m - 1;
        let k = ships[i].len();
        lemma_weights_count(ships, hits, i as nat, c);
        lemma_ship_weight_counts(ships, hits, i, k, c);
        lemma_so_far(ships, i, k, all);
        lemma_so_far(ships, i, k, hit);
        lemma_so_far(ships, i, k, here);
        lemma_so_far(ships, i, k, both);
        assert(so_far(ships, i, k as int, all) =~= placements_where(ships, m as int, all));
        assert(so_far(ships, i, k as int, hit) =~= placements_where(ships, m as int, hit));
        assert(so_far(ships, i, k as int, here) =~= placements_where(ships, m as int, here));
        assert(so_far(ships, i, k as int, both) =~= placements_where(ships, m as int, both));
    }
}

/// An estimate in plain words: the attempts are shared out evenly among the
/// batches, at least one to each. The accepted samples are counted, and at each
/// cell those that cover it. When none was accepted, every placement counts once,
/// and three times more when it lies on a hit.
pub open spec fn counts_samples(
    cfg: &GameConfig,
    ships: Seq<Seq<Seq<usize>>>,
    hits: Seq<usize>,
    attempts: u64,
    batches: nat,
    per: nat,
    grid: Seq<u64>,
    accepted: u64,
    total: u64,
) -> bool {
    let s = samples(cfg, ships, hits, per, batches);
    let m = ships.len() as int;
    &&& if batches <= attempts {
        per * batches <= attempts < (per + 1) * batches
    } else {
        per == 1
    }
    &&& accepted == s.len()
    &&& s.len() > 0 ==> total == s.len()
    &&& s.len() == 0 ==> total == placements_where(ships, m, |p: Seq<usize>| true).len() + 3
        * placements_where(ships, m, |p: Seq<usize>| on_a_hit(hits, p)).len()
    &&& grid.len() == cfg.width * cfg.height
    &&& forall|c: int|
        #![trigger grid[c]]
        0 <= c < grid.len() ==> grid[c] == (if s.len() > 0 {
            covering(ships, s, c as usize).len()
        } else {
            placements_where(ships, m, |p: Seq<usize>| p.contains(c as usize)).len() + 3
                * placements_where(
                ships,
                m,
                |p: Seq<usize>| p.contains(c as usize) && on_a_hit(hits, p),
            ).len()
        })
}

/// Every estimate counts its samples.
pub proof fn lemma_estimates(
    cfg: &GameConfig,
    ships: Seq<Seq<Seq<usize>>>,
    hits: Seq<usize>,
    attempts: u64,
    batches: nat,
    grid: Seq<u64>,
    accepted: u64,
    total: u64,
)
    requires
        cfg.fits(),
        1 <= batches,
        estimates(cfg, ships, hits, attempts, batches, grid, accepted, total),
    ensures
        exists|per: nat| #[trigger]
            counts_samples(
                cfg,
                ships,
                hits,
                attempts,
                batches,
                per,
                grid,
                accepted,
                total,
            ),
{
    let per = attempts_per_batch(attempts, batches);
    let s = samples(cfg, ships, hits, per, batches);
    let m = ships.len() as int;
    let n = attempts as int;
    let b = batches as int;
    let quotient = n / b;
    lemma_fundamental_div_mod(n, b);
    if b <= n {
        assert(quotient >= 1) by (nonlinear_arith)
            requires
                n == b * quotient + n % b,
                n % b < b,
                1 <= b,
                b <= n,
        ;
        assert(per * batches <= attempts < (per + 1) * batches) by (nonlinear_arith)
            requires
                per == quotient,
                b == batches,
                n == attempts,
                n == b * quotient + n % b,
                0 <= n % b,
                n % b < b,
        ;
    } else {
        assert(quotient < 1) by (nonlinear_arith)
            requires
                n == b * quotient + n % b,
                0 <= n % b,
                n < b,
                0 <= n,
        ;
    }
    lemma_weights_count(ships, hits, ships.len(), 0);
    assert forall|c: int|
        #![trigger grid[c]]
        0 <= c < grid.len() implies grid[c] == (if s.len() > 0 {
        covering(ships, s, c as usize).len()
    } else {
        placements_where(ships, m, |p: Seq<usize>| p.contains(c as usize)).len() + 3
            * placements_where(
            ships,
            m,
            |p: Seq<usize>| p.contains(c as usize) && on_a_hit(hits, p),
        ).len()
    }) by {
        let k = c as usize;
        assert(grid[k as int] == grid[c]);
        lemma_covering(ships, s, k);
        lemma_weights_count(ships, hits, ships.len(), k);
    }
    assert(counts_samples(cfg, ships, hits, attempts, batches, per, grid, accepted, total));
}

/// A sampled heatmap shows the counts of forty thousand attempts, in some number
/// of batches, at the unknown cells.
pub open spec fn shows_samples(
    cfg: &GameConfig,
    states: Seq<CellState>,
    lens: Seq<usize>,
    batches: nat,
    per: nat,
    grid: Seq<u64>,
    r: SolveResult,
) -> bool {
    &&& 1 <= batches
    &&& counts_samples(
        cfg,
        open_ships(cfg, states, lens),
        hit_cells(states),
        40_000,
        batches,
        per,
        grid,
        r.configs,
        r.total,
    )
    &&& r.counts@.len() == grid.len()
    &&& forall|c: int|
        #![trigger r.counts@[c]]
        0 <= c < states.len() ==> r.counts@[c] == (if states[c] == CellState::Unknown {
            grid[c]
        } else {
            0
        })
}

/// Every sampled heatmap shows its samples.
pub proof fn lemma_sampled_counts(
    cfg: &GameConfig,
    states: Seq<CellState>,
    remaining: Seq<usize>,
    lens: Seq<usize>,
    r: SolveResult,
)
    requires
        cfg.fits(),
        states.len() == cfg.size(),
        longest_first_of(lens, remaining),
        solved(cfg, states, remaining, r),
        r.method == Method::MonteCarlo,
    ensures
        exists|batches: nat, per: nat, grid: Seq<u64>| #[trigger]
            shows_samples(cfg, states, lens, batches, per, grid, r),
{
    lemma_descending(remaining, lens);
    let ships = open_ships(cfg, states, lens);
    let hits = hit_cells(states);
    let batches = choose|batches: nat|
        1 <= batches && #[trigger] solved_in(cfg, states, remaining, batches, r);
    let grid = choose|grid: Seq<u64>| #[trigger]
        estimates(
            cfg,
            ships,
            hits,
            MC_ATTEMPTS,
            batches,
            grid,
            r.configs,
            r.total,
        ) && shows(states, grid, r.counts@);
    lemma_estimates(cfg, ships, hits, MC_ATTEMPTS, batches, grid, r.configs, r.total);
    let per = choose|per: nat| #[trigger]
        counts_samples(
            cfg,
            ships,
            hits,
            MC_ATTEMPTS,
            batches,
            per,
            grid,
            r.configs,
            r.total,
        );
    assert(shows_samples(cfg, states, lens, batches, per, grid, r));
}

} // verus!
