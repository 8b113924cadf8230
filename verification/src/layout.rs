//! Ships laid out on a board, by hand or at random.

use crate::board::{can_place, lemma_views_push, ship_placements, views, GameConfig, Ship, TrueBoard};
use crate::geometry::{
    compatible, lemma_placement_cells, lemma_touching_symmetric, on_board, placeable,
    placement_list,
};
use crate::order::{descending, longest_first};
use crate::outside::{choose_from, pick, rng_state};
use crate::solver::lemma_placed_len;
use rand::rngs::StdRng;
use vstd::prelude::*;

verus! {

/// A ship as mathematics.
#[verifier::ext_equal]
pub struct ShipView {
    pub len: usize,
    pub cells: Seq<usize>,
}

impl View for Ship {
    type V = ShipView;

    open spec fn view(&self) -> ShipView {
        ShipView { len: self.len, cells: self.cells@ }
    }
}

/// The ships behind a list of them.
pub open spec fn ship_views(ships: Seq<Ship>) -> Seq<ShipView> {
    ships.map_values(|s: Ship| s@)
}

/// The cells of each ship.
pub open spec fn ship_cells(ships: Seq<ShipView>) -> Seq<Seq<usize>> {
    ships.map_values(|s: ShipView| s.cells)
}

/// The length of each ship.
pub open spec fn ship_lens(ships: Seq<ShipView>) -> Seq<usize> {
    ships.map_values(|s: ShipView| s.len)
}

/// The placement is in the way of none of those chosen before.
pub open spec fn fits_beside(cfg: &GameConfig, chosen: Seq<Seq<usize>>, p: Seq<usize>) -> bool {
    forall|k: int| 0 <= k < chosen.len() ==> compatible(cfg, #[trigger] chosen[k], p)
}

/// Ships that lie on the board, none of them in the way of another.
pub open spec fn at_peace(cfg: &GameConfig, ships: Seq<ShipView>) -> bool {
    &&& forall|i: int|
        #![trigger ships[i]]
        0 <= i < ships.len() ==> 1 <= ships[i].len && placement_list(
            cfg,
            ships[i].len as int,
        ).contains(ships[i].cells)
    &&& forall|i: int, j: int|
        #![trigger ships[i], ships[j]]
        0 <= i < j < ships.len() ==> compatible(cfg, ships[i].cells, ships[j].cells)
}

/// The ship that lies on the cell, if any.
pub open spec fn owner(ships: Seq<ShipView>, c: int) -> Option<usize> {
    if exists|i: int| 0 <= i < ships.len() && (#[trigger] ships[i]).cells.contains(c as usize) {
        Some(
            (choose|i: int|
                0 <= i < ships.len() && (#[trigger] ships[i]).cells.contains(
                    c as usize,
                )) as usize,
        )
    } else {
        None
    }
}

/// For each cell of the board the ship that lies on it.
pub open spec fn owners(cfg: &GameConfig, ships: Seq<ShipView>) -> Seq<Option<usize>> {
    Seq::new(cfg.size() as nat, |c: int| owner(ships, c))
}

/// For each cell of the board whether a ship lies on it.
pub open spec fn occupied(cfg: &GameConfig, ships: Seq<ShipView>) -> Seq<bool> {
    Seq::new(cfg.size() as nat, |c: int| owner(ships, c) is Some)
}

/// Ships at peace, and for each cell the ship that lies on it.
pub open spec fn laid_out(
    cfg: &GameConfig,
    cell_ship: Seq<Option<usize>>,
    ships: Seq<ShipView>,
) -> bool {
    at_peace(cfg, ships) && cell_ship == owners(cfg, ships)
}

/// On ships at peace, the owner of a cell is the one ship that lies on it.
pub proof fn lemma_owner(cfg: &GameConfig, ships: Seq<ShipView>, c: int, i: int)
    requires
        cfg.fits(),
        at_peace(cfg, ships),
        ships.len() <= usize::MAX,
        0 <= c < cfg.size(),
        0 <= i < ships.len(),
    ensures
        ships[i].cells.contains(c as usize) <==> owner(ships, c) == Some(i as usize),
        owner(ships, c) matches Some(k) ==> k < ships.len() && ships[k as int].cells.contains(
            c as usize,
        ),
{
    if exists|k: int| 0 <= k < ships.len() && (#[trigger] ships[k]).cells.contains(c as usize) {
        let k = choose|k: int|
            0 <= k < ships.len() && (#[trigger] ships[k]).cells.contains(c as usize);
        assert(owner(ships, c) == Some(k as usize));
        if ships[i].cells.contains(c as usize) && i != k {
            lemma_disjoint_ships(cfg, ships, i, k, c as usize);
        }
    }
}

/// Two ships at peace share no cell.
pub proof fn lemma_disjoint_ships(
    cfg: &GameConfig,
    ships: Seq<ShipView>,
    i: int,
    j: int,
    c: usize,
)
    requires
        at_peace(cfg, ships),
        0 <= i < ships.len(),
        0 <= j < ships.len(),
        i != j,
    ensures
        !(ships[i].cells.contains(c) && ships[j].cells.contains(c)),
{
    if ships[i].cells.contains(c) && ships[j].cells.contains(c) {
        let (a, b) = if i < j {
            (i, j)
        } else {
            (j, i)
        };
        let (p, q) = (ships[a].cells, ships[b].cells);
        assert(compatible(cfg, p, q));
        let x = choose|x: int| 0 <= x < p.len() && p[x] == c;
        let y = choose|y: int| 0 <= y < q.len() && q[y] == c;
        assert(cfg.apart(p[x] as int, q[y] as int));
    }
}

impl TrueBoard {
    /// The ships lie on the board as the rules demand.
    pub open spec fn lawful(&self, cfg: &GameConfig) -> bool {
        laid_out(cfg, self.cell_ship@, ship_views(self.ships@))
    }

    /// The ships lie on the board as the rules demand, and are the fleet.
    pub open spec fn valid(&self, cfg: &GameConfig) -> bool {
        &&& self.lawful(cfg)
        &&& ship_lens(ship_views(self.ships@)).to_multiset() == cfg.ships@.to_multiset()
    }
}

/// A copy of a list of ships.
pub(crate) fn copy_ships(ships: &Vec<Ship>) -> (r: Vec<Ship>)
    ensures
        ship_views(r@) == ship_views(ships@),
{
    let mut v: Vec<Ship> = Vec::with_capacity(ships.len());
    let mut i: usize = 0;
    while i < ships.len()
        invariant
            i <= ships@.len(),
            v@.len() == i,
            forall|k: int| 0 <= k < i ==> (#[trigger] v@[k])@ == ships@[k]@,
        decreases ships@.len() - i,
    {
        let s = ships[i].clone();
        assert(s@ == ships@[i as int]@);
        v.push(s);
        i += 1;
    }
    assert(ship_views(v@) =~= ship_views(ships@));
    v
}

impl Clone for TrueBoard {
    fn clone(&self) -> (r: Self)
        ensures
            r.cell_ship@ == self.cell_ship@,
            ship_views(r.ships@) == ship_views(self.ships@),
    {
        TrueBoard { cell_ship: copy_owners(&self.cell_ship), ships: copy_ships(&self.ships) }
    }
}

/// A copy of the list of the cells' ships.
pub(crate) fn copy_owners(cell_ship: &Vec<Option<usize>>) -> (r: Vec<Option<usize>>)
    ensures
        r@ == cell_ship@,
{
    let mut v: Vec<Option<usize>> = Vec::with_capacity(cell_ship.len());
    let mut i: usize = 0;
    while i < cell_ship.len()
        invariant
            i <= cell_ship@.len(),
            v@ == cell_ship@.take(i as int),
        decreases cell_ship@.len() - i,
    {
        v.push(cell_ship[i]);
        i += 1;
        assert(v@ =~= cell_ship@.take(i as int));
    }
    assert(cell_ship@.take(i as int) =~= cell_ship@);
    v
}

/// The state of placing ships one after another at random: the ships placed
/// so far, whether some ship found no place, and the state of the random
/// generator.
pub struct Placing {
    pub ships: Seq<ShipView>,
    pub stuck: bool,
    pub state: Seq<u8>,
}

/// The placements of a ship of `len` that are in no ship's way.
pub open spec fn candidates(cfg: &GameConfig, ships: Seq<ShipView>, len: int) -> Seq<Seq<usize>> {
    placement_list(cfg, len).filter(|p: Seq<usize>| fits_beside(cfg, ship_cells(ships), p))
}

/// Placing the first `k` of the ships: each takes one of its candidates at
/// random; a ship without one ends the attempt.
pub open spec fn placing(cfg: &GameConfig, lens: Seq<usize>, k: nat, start: Placing) -> Placing
    decreases k,
{
    if k == 0 {
        start
    } else {
        let prev = placing(cfg, lens, (k - 1) as nat, start);
        let len = lens[k - 1];
        let free = candidates(cfg, prev.ships, len as int);
        if prev.stuck {
            prev
        } else if free.len() == 0 {
            Placing { stuck: true, ..prev }
        } else {
            let picked = pick(prev.state, free.len());
            Placing {
                ships: prev.ships.push(ShipView { len, cells: free[picked.0 as int] }),
                stuck: false,
                state: picked.1,
            }
        }
    }
}

/// An empty board and a generator in the given state.
pub open spec fn fresh(state: Seq<u8>) -> Placing {
    Placing { ships: Seq::empty(), stuck: false, state }
}

/// Up to `tries` attempts to place all the ships on an empty board: the first
/// that is not stuck, or the state after the last.
pub open spec fn attempts(cfg: &GameConfig, lens: Seq<usize>, tries: nat, state: Seq<u8>) -> Placing
    decreases tries,
{
    if tries == 0 {
        Placing { ships: Seq::empty(), stuck: true, state }
    } else {
        let first = placing(cfg, lens, lens.len(), fresh(state));
        if first.stuck {
            attempts(cfg, lens, (tries - 1) as nat, first.state)
        } else {
            first
        }
    }
}

/// Ships at peace that are the first of those asked for, and among which the
/// next has no place.
pub open spec fn dead_end(cfg: &GameConfig, lens: Seq<usize>, ships: Seq<ShipView>) -> bool {
    &&& at_peace(cfg, ships)
    &&& ships.len() < lens.len()
    &&& ship_lens(ships) == lens.take(ships.len() as int)
    &&& candidates(cfg, ships, lens[ships.len() as int] as int).len() == 0
}

/// How often a random board is attempted.
pub const BOARD_ATTEMPTS: usize = 3000;

proof fn lemma_stuck(cfg: &GameConfig, lens: Seq<usize>, i: nat, k: nat, start: Placing)
    requires
        i <= k,
        placing(cfg, lens, i, start).stuck,
    ensures
        placing(cfg, lens, k, start) == placing(cfg, lens, i, start),
    decreases k,
{
    if i < k {
        lemma_stuck(cfg, lens, i, (k - 1) as nat, start);
    }
}

/// Two tests that agree on the items of a list pick the same items.
pub proof fn lemma_filter_congruent<A>(s: Seq<A>, p: spec_fn(A) -> bool, q: spec_fn(A) -> bool)
    requires
        forall|x: A| #[trigger] s.contains(x) ==> p(x) == q(x),
    ensures
        s.filter(p) == s.filter(q),
    decreases s.len(),
{
    if s.len() > 0 {
        let t = s.drop_last();
        assert(s =~= t.push(s.last()));
        assert forall|x: A| #[trigger] t.contains(x) implies p(x) == q(x) by {
            let i = choose|i: int| 0 <= i < t.len() && t[i] == x;
            assert(s[i] == x);
            assert(s.contains(x));
        }
        lemma_filter_congruent(t, p, q);
        t.lemma_filter_push(s.last(), p);
        t.lemma_filter_push(s.last(), q);
        assert(s[s.len() - 1] == s.last());
        assert(s.contains(s.last()));
    } else {
        s.lemma_filter_len(p);
        s.lemma_filter_len(q);
        assert(s.filter(p) =~= s.filter(q));
    }
}

/// A placement may be added to the occupied cells exactly when it is in the way
/// of none of the ships.
pub proof fn lemma_room(cfg: &GameConfig, ships: Seq<ShipView>, p: Seq<usize>)
    requires
        cfg.fits(),
        at_peace(cfg, ships),
        ships.len() <= usize::MAX,
    ensures
        placeable(cfg, occupied(cfg, ships), p) <==> fits_beside(cfg, ship_cells(ships), p),
{
    let chosen = ship_cells(ships);
    let occ = occupied(cfg, ships);
    if placeable(cfg, occ, p) {
        assert forall|k: int| 0 <= k < chosen.len() implies compatible(cfg, #[trigger] chosen[k], p) by {
            let q = chosen[k];
            assert(q == ships[k].cells);
            lemma_placement_cells(cfg, ships[k].len as int, q);
            assert forall|a: int, b: int|
                #![trigger q[a], p[b]]
                0 <= a < q.len() && 0 <= b < p.len() implies cfg.apart(q[a] as int, p[b] as int) by {
                let c = q[a] as int;
                assert(q.contains(q[a]));
                lemma_owner(cfg, ships, c, k);
                assert(occ[c]);
                lemma_touching_symmetric(cfg, c, p[b] as int);
            }
        }
    }
    if fits_beside(cfg, chosen, p) {
        assert forall|b: int, o: int|
            #![trigger p[b], occ[o]]
            0 <= b < p.len() && 0 <= o < occ.len() && occ[o] implies cfg.apart(p[b] as int, o) by {
            let i = choose|i: int|
                0 <= i < ships.len() && (#[trigger] ships[i]).cells.contains(o as usize);
            let q = chosen[i];
            assert(q == ships[i].cells);
            assert(compatible(cfg, q, p));
            let a = choose|a: int| 0 <= a < q.len() && q[a] == o as usize;
            assert(cfg.apart(q[a] as int, p[b] as int));
            lemma_touching_symmetric(cfg, o, p[b] as int);
        }
    }
}

/// The placements of a ship of `len` that may be added to the marked cells.
fn free_placements(cfg: &GameConfig, occ: &Vec<bool>, len: usize) -> (r: Vec<Vec<usize>>)
    requires
        cfg.fits(),
        occ@.len() == cfg.size(),
    ensures
        views(r@) == placement_list(cfg, len as int).filter(
            |p: Seq<usize>| placeable(cfg, occ@, p),
        ),
{
    let all = ship_placements(cfg, len);
    let ghost list = placement_list(cfg, len as int);
    let ghost pred = |p: Seq<usize>| placeable(cfg, occ@, p);
    let mut out: Vec<Vec<usize>> = Vec::new();
    let mut k: usize = 0;
    proof {
        list.take(0).lemma_filter_len(pred);
        assert(views(out@) =~= list.take(0).filter(pred));
    }
    while k < all.len()
        invariant
            cfg.fits(),
            occ@.len() == cfg.size(),
            k <= all@.len(),
            list == placement_list(cfg, len as int),
            views(all@) == list,
            pred == (|p: Seq<usize>| placeable(cfg, occ@, p)),
            views(out@) == list.take(k as int).filter(pred),
        decreases all@.len() - k,
    {
        let p = &all[k];
        proof {
            assert(list[k as int] == p@);
            assert(list.contains(p@));
            lemma_placed_len(cfg, len as int);
            lemma_placement_cells(cfg, len as int, p@);
            assert(list.take(k + 1) =~= list.take(k as int).push(p@));
            list.take(k as int).lemma_filter_push(p@, pred);
        }
        if can_place(cfg, occ, p) {
            let q = p.clone();
            proof {
                assert(q@ =~= p@);
                lemma_views_push(out@, q);
            }
            out.push(q);
        }
        k += 1;
    }
    assert(list.take(k as int) =~= list);
    out
}

/// Another ship at peace with the others leaves them at peace.
pub proof fn lemma_add_ship(cfg: &GameConfig, ships: Seq<ShipView>, s: ShipView)
    requires
        cfg.fits(),
        at_peace(cfg, ships),
        ships.len() < usize::MAX,
        1 <= s.len,
        placement_list(cfg, s.len as int).contains(s.cells),
        placeable(cfg, occupied(cfg, ships), s.cells),
    ensures
        at_peace(cfg, ships.push(s)),
        forall|c: int|
            #![trigger owner(ships.push(s), c)]
            0 <= c < cfg.size() ==> owner(ships.push(s), c) == (if s.cells.contains(c as usize) {
                Some(ships.len() as usize)
            } else {
                owner(ships, c)
            }),
{
    let new = ships.push(s);
    lemma_room(cfg, ships, s.cells);
    assert forall|i: int, j: int|
        #![trigger new[i], new[j]]
        0 <= i < j < new.len() implies compatible(cfg, new[i].cells, new[j].cells) by {
        assert(new[i] == ships[i]);
        if j < ships.len() {
            assert(new[j] == ships[j]);
        } else {
            assert(compatible(cfg, ship_cells(ships)[i], s.cells));
        }
    }
    assert forall|i: int|
        #![trigger new[i]]
        0 <= i < new.len() implies 1 <= new[i].len && placement_list(
        cfg,
        new[i].len as int,
    ).contains(new[i].cells) by {
        if i < ships.len() {
            assert(new[i] == ships[i]);
        }
    }
    assert forall|c: int|
        #![trigger owner(new, c)]
        0 <= c < cfg.size() implies owner(new, c) == (if s.cells.contains(c as usize) {
        Some(ships.len() as usize)
    } else {
        owner(ships, c)
    }) by {
        let n = ships.len() as int;
        lemma_owner(cfg, new, c, n);
        assert(new[n] == s);
        if !s.cells.contains(c as usize) {
            match owner(ships, c) {
                Some(k) => {
                    lemma_owner(cfg, ships, c, k as int);
                    assert(new[k as int] == ships[k as int]);
                    lemma_owner(cfg, new, c, k as int);
                },
                None => {
                    if let Some(k) = owner(new, c) {
                        assert(k != n);
                        assert(new[k as int] == ships[k as int]);
                    }
                },
            }
        }
    }
}

/// Puts a ship on the board.
pub fn put_ship(
    cfg: &GameConfig,
    occ: &mut Vec<bool>,
    cell_ship: &mut Vec<Option<usize>>,
    ships: &mut Vec<Ship>,
    len: usize,
    cells: Vec<usize>,
)
    requires
        cfg.fits(),
        laid_out(cfg, old(cell_ship)@, ship_views(old(ships)@)),
        old(occ)@ == occupied(cfg, ship_views(old(ships)@)),
        1 <= len,
        placement_list(cfg, len as int).contains(cells@),
        placeable(cfg, old(occ)@, cells@),
    ensures
        laid_out(cfg, final(cell_ship)@, ship_views(final(ships)@)),
        final(occ)@ == occupied(cfg, ship_views(final(ships)@)),
        ship_views(final(ships)@) == ship_views(old(ships)@).push(
            ShipView { len, cells: cells@ },
        ),
{
    let ship_idx: usize = ships.len();
    let ghost old_ships = ship_views(ships@);
    let ghost s = ShipView { len, cells: cells@ };
    proof {
        lemma_placement_cells(cfg, len as int, cells@);
    }
    let mut k: usize = 0;
    while k < cells.len()
        invariant
            cfg.fits(),
            on_board(cfg, cells@),
            k <= cells@.len(),
            occ@.len() == cfg.size(),
            cell_ship@.len() == cfg.size(),
            forall|c: int|
                #![trigger occ@[c]]
                0 <= c < occ@.len() ==> occ@[c] == (cell_ship@[c] is Some),
            forall|c: int|
                #![trigger cell_ship@[c]]
                0 <= c < cell_ship@.len() ==> cell_ship@[c] == (if cells@.take(k as int).contains(
                    c as usize,
                ) {
                    Some(ship_idx)
                } else {
                    owner(old_ships, c)
                }),
        decreases cells@.len() - k,
    {
        let ghost before = cells@.take(k as int);
        let ghost after = cells@.take(k + 1);
        let c = cells[k];
        let ghost prev = cell_ship@;
        occ[c] = true;
        cell_ship[c] = Some(ship_idx);
        assert forall|i: int|
            #![trigger cell_ship@[i]]
            0 <= i < cell_ship@.len() implies cell_ship@[i] == (if after.contains(i as usize) {
            Some(ship_idx)
        } else {
            owner(old_ships, i)
        }) by {
            assert(after =~= before.push(c));
            assert(after[k as int] == c);
            if before.contains(i as usize) {
                let j = choose|j: int| 0 <= j < before.len() && before[j] == i as usize;
                assert(after[j] == i as usize);
            }
            assert(i == c || cell_ship@[i] == prev[i]);
        }
        k += 1;
    }
    assert(cells@.take(k as int) =~= cells@);
    ships.push(Ship { len, cells });
    proof {
        let new = ship_views(ships@);
        assert(new =~= old_ships.push(s));
        assert(ships@.len() == ships.len());
        lemma_add_ship(cfg, old_ships, s);
        assert forall|c: int| 0 <= c < cfg.size() implies cell_ship@[c] == owner(new, c) by {}
        assert(cell_ship@ =~= owners(cfg, new));
        assert(occ@ =~= occupied(cfg, new)) by {
            assert forall|c: int| 0 <= c < cfg.size() implies occ@[c] == (owner(new, c) is Some) by {
                assert(cell_ship@[c] == owner(new, c));
            }
        }
    }
}

/// Places the given ships one after another, each at a random free placement.
/// Returns false when a ship found none; the ships before it stay placed.
pub(crate) fn place_ships(
    cfg: &GameConfig,
    lens: &[usize],
    occ: &mut Vec<bool>,
    cell_ship: &mut Vec<Option<usize>>,
    ships: &mut Vec<Ship>,
    rng: &mut StdRng,
) -> (r: bool)
    requires
        cfg.fits(),
        laid_out(cfg, old(cell_ship)@, ship_views(old(ships)@)),
        old(occ)@ == occupied(cfg, ship_views(old(ships)@)),
    ensures
        laid_out(cfg, final(cell_ship)@, ship_views(final(ships)@)),
        final(occ)@ == occupied(cfg, ship_views(final(ships)@)),
        ({
            let start = Placing {
                ships: ship_views(old(ships)@),
                stuck: false,
                state: rng_state(*old(rng)),
            };
            let end = placing(cfg, lens@, lens@.len(), start);
            &&& r == !end.stuck
            &&& ship_views(final(ships)@) == end.ships
            &&& rng_state(*final(rng)) == end.state
        }),
{
    let ghost start = Placing { ships: ship_views(ships@), stuck: false, state: rng_state(*rng) };
    let mut i: usize = 0;
    while i < lens.len()
        invariant
            cfg.fits(),
            start == (Placing {
                ships: ship_views(old(ships)@),
                stuck: false,
                state: rng_state(*old(rng)),
            }),
            i <= lens@.len(),
            laid_out(cfg, cell_ship@, ship_views(ships@)),
            occ@ == occupied(cfg, ship_views(ships@)),
            placing(cfg, lens@, i as nat, start) == (Placing {
                ships: ship_views(ships@),
                stuck: false,
                state: rng_state(*rng),
            }),
        decreases lens@.len() - i,
    {
        let len = lens[i];
        let ghost list = placement_list(cfg, len as int);
        let ghost sv = ship_views(ships@);
        let ghost room = |p: Seq<usize>| placeable(cfg, occ@, p);
        let ghost beside = |p: Seq<usize>| fits_beside(cfg, ship_cells(sv), p);
        let free = free_placements(cfg, occ, len);
        proof {
            assert(ships@.len() == ships.len());
            assert forall|p: Seq<usize>| #[trigger] list.contains(p) implies room(p) == beside(p) by {
                lemma_room(cfg, sv, p);
            }
            lemma_filter_congruent(list, room, beside);
            assert(views(free@) == candidates(cfg, sv, len as int));
            assert(views(free@).len() == free@.len());
        }
        let ghost before = rng_state(*rng);
        match choose_from(&free, rng) {
            None => {
                proof {
                    lemma_stuck(cfg, lens@, (i + 1) as nat, lens@.len(), start);
                }
                return false;
            },
            Some(chosen) => {
                let cells = chosen.clone();
                proof {
                    assert(cells@ =~= chosen@);
                    let k = pick(before, free@.len()).0 as int;
                    assert(views(free@)[k] == chosen@);
                    assert(list.filter(room).contains(chosen@));
                    list.lemma_filter_contains_rev(room, chosen@);
                    lemma_placed_len(cfg, len as int);
                }
                put_ship(cfg, occ, cell_ship, ships, len, cells);
            },
        }
        i += 1;
    }
    true
}

/// The ships placed are those asked for, up to the one that found no place,
/// after the ones that were there. That one has no candidate.
pub proof fn lemma_placing_lens(cfg: &GameConfig, lens: Seq<usize>, k: nat, start: Placing)
    requires
        k <= lens.len(),
        !start.stuck,
    ensures
        ({
            let end = placing(cfg, lens, k, start);
            &&& start.ships.len() <= end.ships.len() <= start.ships.len() + k
            &&& ship_lens(end.ships) == ship_lens(start.ships) + lens.take(
                end.ships.len() - start.ships.len(),
            )
            &&& forall|i: int|
                #![trigger start.ships[i]]
                0 <= i < start.ships.len() ==> end.ships[i] == start.ships[i]
            &&& !end.stuck ==> end.ships.len() == start.ships.len() + k
            &&& end.stuck ==> end.ships.len() < start.ships.len() + k && candidates(
                cfg,
                end.ships,
                lens[end.ships.len() - start.ships.len()] as int,
            ).len() == 0
        }),
    decreases k,
{
    if k == 0 {
        assert(ship_lens(start.ships) =~= ship_lens(start.ships) + lens.take(0));
    } else {
        lemma_placing_lens(cfg, lens, (k - 1) as nat, start);
        let prev = placing(cfg, lens, (k - 1) as nat, start);
        let end = placing(cfg, lens, k, start);
        if !end.stuck {
            assert(lens.take(k as int) =~= lens.take(k - 1).push(lens[k - 1]));
            assert(ship_lens(end.ships) =~= ship_lens(prev.ships).push(lens[k - 1]));
            assert(ship_lens(end.ships) =~= ship_lens(start.ships) + lens.take(k as int));
        }
    }
}

impl TrueBoard {
    /// Place the whole fleet at random, respecting overlap and the gap rule.
    /// Returns `None` if no valid arrangement was found within the attempt
    /// budget (e.g. too many ships for the board).
    pub fn random(cfg: &GameConfig, rng: &mut StdRng) -> (r: Option<TrueBoard>)
        requires
            cfg.fits(),
        ensures
            ({
                let end = attempts(
                    cfg,
                    descending(cfg.ships@),
                    BOARD_ATTEMPTS as nat,
                    rng_state(*old(rng)),
                );
                &&& rng_state(*final(rng)) == end.state
                &&& r is None <==> end.stuck
                &&& r is None ==> exists|ships: Seq<ShipView>| #[trigger]
                    dead_end(cfg, descending(cfg.ships@), ships)
                &&& r matches Some(board) ==> {
                    &&& board.valid(cfg)
                    &&& ship_views(board.ships@) == end.ships
                }
            }),
    {
        // Place longest ships first: they are the hardest to fit.
        let order = longest_first(cfg.ships.as_slice());
        let n = cfg.cells();
        let ghost start = rng_state(*rng);
        let mut t: usize = 0;
        while t < BOARD_ATTEMPTS
            invariant
                cfg.fits(),
                n == cfg.size(),
                order@ == descending(cfg.ships@),
                order@.len() == cfg.ships@.len(),
                t <= BOARD_ATTEMPTS,
                start == rng_state(*old(rng)),
                t > 0 ==> exists|ships: Seq<ShipView>| #[trigger] dead_end(cfg, order@, ships),
                attempts(cfg, order@, BOARD_ATTEMPTS as nat, start) == attempts(
                    cfg,
                    order@,
                    (BOARD_ATTEMPTS - t) as nat,
                    rng_state(*rng),
                ),
            decreases BOARD_ATTEMPTS - t,
        {
            let mut occ: Vec<bool> = vec![false; n];
            let mut cell_ship: Vec<Option<usize>> = no_ships(n);
            let mut ships: Vec<Ship> = Vec::with_capacity(order.len());
            proof {
                lemma_empty_board(cfg);
                assert(ship_views(ships@) =~= Seq::empty());
                assert(cell_ship@ =~= owners(cfg, Seq::empty()));
                assert(occ@ =~= occupied(cfg, Seq::empty()));
            }
            let ghost state = rng_state(*rng);
            let ok = place_ships(cfg, order.as_slice(), &mut occ, &mut cell_ship, &mut ships, rng);
            if ok {
                proof {
                    lemma_placing_lens(cfg, order@, order@.len(), fresh(state));
                    assert(order@.take(order@.len() as int) =~= order@);
                    assert(ship_lens(ship_views(ships@)) =~= order@);
                    crate::order::lemma_descending(cfg.ships@, order@);
                }
                return Some(TrueBoard { cell_ship, ships });
            }
            // Dead end, retry the whole fleet.
            proof {
                let sv = ship_views(ships@);
                lemma_placing_lens(cfg, order@, order@.len(), fresh(state));
                assert(ship_lens(sv) =~= order@.take(sv.len() as int));
                assert(dead_end(cfg, order@, sv));
            }
            t += 1;
        }
        None
    }
}

/// On an empty board there is peace and no cell belongs to a ship.
pub proof fn lemma_empty_board(cfg: &GameConfig)
    ensures
        at_peace(cfg, Seq::empty()),
        forall|c: int| #[trigger] owner(Seq::empty(), c) is None,
{
}

/// No cell belongs to a ship.
pub(crate) fn no_ships(n: usize) -> (r: Vec<Option<usize>>)
    ensures
        r@.len() == n,
        forall|c: int| 0 <= c < n ==> #[trigger] r@[c] is None,
{
    let mut v: Vec<Option<usize>> = Vec::with_capacity(n);
    let mut i: usize = 0;
    while i < n
        invariant
            i <= n,
            v@.len() == i,
            forall|c: int| 0 <= c < i ==> #[trigger] v@[c] is None,
        decreases n - i,
    {
        v.push(None);
        i += 1;
    }
    v
}

} // verus!
