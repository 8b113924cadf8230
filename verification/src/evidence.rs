//! The evidence of a game: what has been revealed of the board, and runs of
//! hits that belong together.

use crate::board::{neighbors4, GameConfig};
use crate::geometry::{edge_neighbors, lemma_edge_neighbors};
use crate::solver::CellState;
use vstd::prelude::*;
use vstd::set_lib::{lemma_int_range, lemma_len_subset, set_int_range};

verus! {

/// A board of which nothing is known.
pub open spec fn blank(n: int) -> Seq<CellState> {
    Seq::new(n as nat, |c: int| CellState::Unknown)
}

/// The number of cells of which something is known.
pub open spec fn revealed(states: Seq<CellState>) -> nat
    decreases states.len(),
{
    if states.len() == 0 {
        0
    } else {
        revealed(states.drop_last()) + (if states.last() == CellState::Unknown {
            0nat
        } else {
            1nat
        })
    }
}

/// At most all cells are revealed, and not all while one is unknown.
pub proof fn lemma_revealed_bounded(states: Seq<CellState>)
    ensures
        revealed(states) <= states.len(),
        forall|c: int|
            0 <= c < states.len() && #[trigger] states[c] == CellState::Unknown ==> revealed(states)
                < states.len(),
    decreases states.len(),
{
    if states.len() > 0 {
        let rest = states.drop_last();
        lemma_revealed_bounded(rest);
        assert forall|c: int|
            0 <= c < states.len() && #[trigger] states[c] == CellState::Unknown implies revealed(
            states,
        ) < states.len() by {
            if c < rest.len() {
                assert(rest[c] == CellState::Unknown);
            }
        }
    }
}

/// Boards with the same unknown cells have revealed equally many.
pub proof fn lemma_revealed_same(a: Seq<CellState>, b: Seq<CellState>)
    requires
        a.len() == b.len(),
        forall|c: int|
            #![trigger a[c]]
            #![trigger b[c]]
            0 <= c < a.len() ==> (a[c] == CellState::Unknown <==> b[c] == CellState::Unknown),
    ensures
        revealed(a) == revealed(b),
    decreases a.len(),
{
    if a.len() > 0 {
        let (p, q) = (a.drop_last(), b.drop_last());
        assert forall|c: int|
            #![trigger p[c]]
            #![trigger q[c]]
            0 <= c < p.len() implies (p[c] == CellState::Unknown <==> q[c] == CellState::Unknown) by {
            assert(p[c] == a[c] && q[c] == b[c]);
        }
        lemma_revealed_same(p, q);
        assert(a[a.len() - 1] == CellState::Unknown <==> b[a.len() - 1] == CellState::Unknown);
    }
}

/// Revealing an unknown cell adds one.
pub proof fn lemma_revealed_one(a: Seq<CellState>, c: int, s: CellState)
    requires
        0 <= c < a.len(),
        a[c] == CellState::Unknown,
        s != CellState::Unknown,
    ensures
        revealed(a.update(c, s)) == revealed(a) + 1,
    decreases a.len(),
{
    let b = a.update(c, s);
    if c == a.len() - 1 {
        assert(b.drop_last() =~= a.drop_last());
    } else {
        lemma_revealed_one(a.drop_last(), c, s);
        assert(b.drop_last() =~= a.drop_last().update(c, s));
    }
}

/// Nothing is revealed of a blank board.
pub proof fn lemma_revealed_blank(n: int)
    requires
        0 <= n,
    ensures
        revealed(blank(n)) == 0,
    decreases n,
{
    if n > 0 {
        lemma_revealed_blank(n - 1);
        assert(blank(n).drop_last() =~= blank(n - 1));
    }
}

/// A board of which nothing is known.
pub fn blank_states(n: usize) -> (r: Vec<CellState>)
    ensures
        r@ == blank(n as int),
{
    let mut v: Vec<CellState> = Vec::with_capacity(n);
    let mut i: usize = 0;
    while i < n
        invariant
            i <= n,
            v@ == blank(i as int),
        decreases n - i,
    {
        v.push(CellState::Unknown);
        i += 1;
        assert(v@ =~= blank(i as int));
    }
    v
}

/// Counts the cells of which something is known.
pub fn count_revealed(states: &[CellState]) -> (r: u32)
    requires
        states@.len() <= u32::MAX,
    ensures
        r == revealed(states@),
{
    let mut n: u32 = 0;
    let mut i: usize = 0;
    assert(states@.take(0) =~= Seq::empty());
    while i < states.len()
        invariant
            i <= states@.len() <= u32::MAX,
            n == revealed(states@.take(i as int)),
        decreases states@.len() - i,
    {
        proof {
            assert(states@.take(i + 1).drop_last() =~= states@.take(i as int));
            lemma_revealed_bounded(states@.take(i as int));
        }
        if states[i] != CellState::Unknown {
            n += 1;
        }
        i += 1;
    }
    assert(states@.take(i as int) =~= states@);
    n
}

/// The list without the first occurrence of `x`.
pub open spec fn without(v: Seq<usize>, x: usize) -> Seq<usize> {
    match v.index_of_first(x) {
        Some(i) => v.remove(i),
        None => v,
    }
}

/// Removes the first occurrence of `x`; tells whether there was one.
pub fn remove_one(v: &mut Vec<usize>, x: usize) -> (r: bool)
    ensures
        r == old(v)@.contains(x),
        final(v)@ == without(old(v)@, x),
{
    let ghost before = v@;
    proof {
        before.index_of_first_ensures(x);
    }
    let mut i: usize = 0;
    while i < v.len()
        invariant
            v@ == before,
            before == old(v)@,
            i <= before.len(),
            forall|k: int| 0 <= k < i ==> before[k] != x,
            match before.index_of_first(x) {
                Some(index) => {
                    &&& before.contains(x)
                    &&& 0 <= index < before.len()
                    &&& before[index] == x
                    &&& forall|j: int| 0 <= j < index < before.len() ==> before[j] != x
                },
                None => { !before.contains(x) },
            },
        decreases before.len() - i,
    {
        if v[i] == x {
            assert(before.contains(x));
            assert(before.index_of_first(x) == Some(i as int));
            v.remove(i);
            return true;
        }
        i += 1;
    }
    false
}

/// Cells of one state, each sharing an edge with the next.
pub open spec fn is_path(
    cfg: &GameConfig,
    states: Seq<CellState>,
    target: CellState,
    path: Seq<int>,
) -> bool {
    &&& path.len() > 0
    &&& forall|i: int|
        #![trigger path[i]]
        0 <= i < path.len() ==> 0 <= path[i] < states.len() && states[path[i]] == target
    &&& forall|i: int, j: int|
        #![trigger path[i], path[j]]
        0 <= i && j == i + 1 && j < path.len() ==> cfg.edge_touching(path[i], path[j])
}

/// A path of cells of one state leads from `a` to `b`.
pub open spec fn linked(
    cfg: &GameConfig,
    states: Seq<CellState>,
    target: CellState,
    a: int,
    b: int,
) -> bool {
    exists|path: Seq<int>| #[trigger]
        is_path(cfg, states, target, path) && path[0] == a && path.last() == b
}

/// The run of cells of the state `target` that hang together with `start`.
pub open spec fn run(
    cfg: &GameConfig,
    states: Seq<CellState>,
    target: CellState,
    start: int,
) -> Set<int> {
    Set::new(|c: int| linked(cfg, states, target, start, c))
}

/// Every cell of a run lies on the board and has the run's state.
pub proof fn lemma_linked(
    cfg: &GameConfig,
    states: Seq<CellState>,
    target: CellState,
    a: int,
    b: int,
)
    requires
        linked(cfg, states, target, a, b),
    ensures
        0 <= a < states.len(),
        states[a] == target,
        0 <= b < states.len(),
        states[b] == target,
{
    let path = choose|path: Seq<int>| #[trigger]
        is_path(cfg, states, target, path) && path[0] == a && path.last() == b;
    assert(path[0] == a && path[path.len() - 1] == b);
}

/// A cell of the state hangs together with itself.
pub proof fn lemma_link_start(cfg: &GameConfig, states: Seq<CellState>, target: CellState, a: int)
    requires
        0 <= a < states.len(),
        states[a] == target,
    ensures
        linked(cfg, states, target, a, a),
{
    let path = seq![a];
    assert(is_path(cfg, states, target, path));
    assert(path.last() == a);
}

/// What shares an edge with a run and has its state belongs to the run.
pub proof fn lemma_link_step(
    cfg: &GameConfig,
    states: Seq<CellState>,
    target: CellState,
    a: int,
    b: int,
    c: int,
)
    requires
        linked(cfg, states, target, a, b),
        0 <= c < states.len(),
        states[c] == target,
        cfg.edge_touching(b, c),
    ensures
        linked(cfg, states, target, a, c),
{
    let path = choose|path: Seq<int>| #[trigger]
        is_path(cfg, states, target, path) && path[0] == a && path.last() == b;
    let longer = path.push(c);
    assert(is_path(cfg, states, target, longer)) by {
        assert forall|i: int, j: int|
            #![trigger longer[i], longer[j]]
            0 <= i && j == i + 1 && j < longer.len() implies cfg.edge_touching(
            longer[i],
            longer[j],
        ) by {
            if j < path.len() {
                assert(longer[i] == path[i] && longer[j] == path[j]);
            }
        }
        assert forall|i: int|
            #![trigger longer[i]]
            0 <= i < longer.len() implies 0 <= longer[i] < states.len() && states[longer[i]]
            == target by {
            if i < path.len() {
                assert(longer[i] == path[i]);
            }
        }
    }
    assert(longer[0] == a && longer.last() == c);
}

/// What a path reaches lies in every set that holds its start and, with a cell,
/// the neighbours of the same state.
pub proof fn lemma_closed(
    cfg: &GameConfig,
    states: Seq<CellState>,
    target: CellState,
    path: Seq<int>,
    within: Set<int>,
)
    requires
        is_path(cfg, states, target, path),
        within.contains(path[0]),
        forall|a: int, b: int|
            #![trigger within.contains(a), within.contains(b)]
            within.contains(a) && 0 <= b < states.len() && states[b] == target
                && cfg.edge_touching(a, b) ==> within.contains(b),
    ensures
        within.contains(path.last()),
    decreases path.len(),
{
    if path.len() > 1 {
        let rest = path.drop_last();
        assert(is_path(cfg, states, target, rest)) by {
            assert forall|i: int, j: int|
                #![trigger rest[i], rest[j]]
                0 <= i && j == i + 1 && j < rest.len() implies cfg.edge_touching(
                rest[i],
                rest[j],
            ) by {
                assert(rest[i] == path[i] && rest[j] == path[j]);
            }
            assert forall|i: int|
                #![trigger rest[i]]
                0 <= i < rest.len() implies 0 <= rest[i] < states.len() && states[rest[i]]
                == target by {
                assert(rest[i] == path[i]);
            }
        }
        lemma_closed(cfg, states, target, rest, within);
        let n = path.len() as int;
        assert(rest.last() == path[n - 2]);
        assert(cfg.edge_touching(path[n - 2], path[n - 1]));
        assert(within.contains(path[n - 1]));
    }
}

/// A list of different cells is no longer than the board.
proof fn lemma_distinct_bounded(s: Seq<usize>, n: int)
    requires
        s.no_duplicates(),
        0 <= n,
        forall|i: int| 0 <= i < s.len() ==> #[trigger] s[i] < n,
    ensures
        s.len() <= n,
{
    let t = s.map_values(|c: usize| c as int);
    assert(t.no_duplicates()) by {
        assert forall|i: int, j: int| 0 <= i < t.len() && 0 <= j < t.len() && i != j implies t[i]
            != t[j] by {
            assert(s[i] != s[j]);
        }
    }
    t.unique_seq_to_set();
    lemma_int_range(0, n);
    assert(t.to_set().subset_of(set_int_range(0, n))) by {
        assert forall|x: int| t.to_set().contains(x) implies set_int_range(0, n).contains(x) by {
            let i = choose|i: int| 0 <= i < t.len() && t[i] == x;
            assert(s[i] < n);
        }
    }
    lemma_len_subset(t.to_set(), set_int_range(0, n));
}

/// A search in progress: the cells seen so far hang together with `start`, and
/// each of them is either done or still to be looked at.
spec fn explored(
    cfg: &GameConfig,
    states: Seq<CellState>,
    target: CellState,
    start: int,
    seen: Seq<bool>,
    out: Seq<usize>,
    stack: Seq<usize>,
) -> bool {
    &&& out.no_duplicates()
    &&& stack.no_duplicates()
    &&& forall|k: int|
        #![trigger out[k]]
        0 <= k < out.len() ==> out[k] < seen.len() && seen[out[k] as int]
    &&& forall|k: int|
        #![trigger stack[k]]
        0 <= k < stack.len() ==> stack[k] < seen.len() && seen[stack[k] as int] && !out.contains(
            stack[k],
        )
    &&& forall|x: int|
        #![trigger seen[x]]
        0 <= x < seen.len() && seen[x] ==> linked(cfg, states, target, start, x) && (out.contains(
            x as usize,
        ) || stack.contains(x as usize))
}

/// The last cell of the stack is done next.
proof fn lemma_take_next(
    cfg: &GameConfig,
    states: Seq<CellState>,
    target: CellState,
    start: int,
    seen: Seq<bool>,
    out: Seq<usize>,
    stack: Seq<usize>,
)
    requires
        explored(cfg, states, target, start, seen, out, stack),
        stack.len() > 0,
        seen.len() <= usize::MAX,
    ensures
        explored(cfg, states, target, start, seen, out.push(stack.last()), stack.drop_last()),
        out.len() < seen.len(),
        stack.last() < seen.len(),
        linked(cfg, states, target, start, stack.last() as int),
{
    let c = stack.last();
    let more = out.push(c);
    let less = stack.drop_last();
    assert(stack[stack.len() - 1] == c);
    assert(seen[c as int]);
    assert(more[out.len() as int] == c);
    assert forall|k: int|
        #![trigger less[k]]
        0 <= k < less.len() implies less[k] < seen.len() && seen[less[k] as int]
        && !more.contains(less[k]) by {
        assert(less[k] == stack[k]);
        assert(stack[k] != stack[stack.len() - 1]);
        if more.contains(less[k]) {
            let j = choose|j: int| 0 <= j < more.len() && more[j] == less[k];
            assert(j < out.len());
            assert(out[j] == less[k]);
        }
    }
    assert forall|x: int|
        #![trigger seen[x]]
        0 <= x < seen.len() && seen[x] implies linked(cfg, states, target, start, x) && (
    more.contains(x as usize) || less.contains(x as usize)) by {
        if out.contains(x as usize) {
            let j = choose|j: int| 0 <= j < out.len() && out[j] == x as usize;
            assert(more[j] == x as usize);
        } else {
            let j = choose|j: int| 0 <= j < stack.len() && stack[j] == x as usize;
            if j < stack.len() - 1 {
                assert(less[j] == x as usize);
            }
        }
    }
    assert forall|i: int, j: int| 0 <= i < more.len() && 0 <= j < more.len() && i != j implies more[i]
        != more[j] by {
        if i < out.len() {
            assert(more[i] == out[i]);
        }
        if j < out.len() {
            assert(more[j] == out[j]);
        }
    }
    assert forall|k: int|
        #![trigger more[k]]
        0 <= k < more.len() implies more[k] < seen.len() && seen[more[k] as int] by {
        if k < out.len() {
            assert(more[k] == out[k]);
        }
    }
    lemma_distinct_bounded(more, seen.len() as int);
}

/// A cell seen for the first time is put on the stack.
proof fn lemma_discover(
    cfg: &GameConfig,
    states: Seq<CellState>,
    target: CellState,
    start: int,
    seen: Seq<bool>,
    out: Seq<usize>,
    stack: Seq<usize>,
    c: usize,
)
    requires
        explored(cfg, states, target, start, seen, out, stack),
        c < seen.len(),
        !seen[c as int],
        linked(cfg, states, target, start, c as int),
    ensures
        explored(cfg, states, target, start, seen.update(c as int, true), out, stack.push(c)),
{
    let now = seen.update(c as int, true);
    let more = stack.push(c);
    assert forall|k: int|
        #![trigger more[k]]
        0 <= k < more.len() implies more[k] < now.len() && now[more[k] as int] && !out.contains(
        more[k],
    ) by {
        if k < stack.len() {
            assert(more[k] == stack[k]);
        } else if out.contains(c) {
            let j = choose|j: int| 0 <= j < out.len() && out[j] == c;
            assert(seen[out[j] as int]);
        }
    }
    assert forall|x: int|
        #![trigger now[x]]
        0 <= x < now.len() && now[x] implies linked(cfg, states, target, start, x) && (
    out.contains(x as usize) || more.contains(x as usize)) by {
        if x == c {
            assert(more[stack.len() as int] == c);
        } else {
            assert(seen[x]);
            if stack.contains(x as usize) {
                let j = choose|j: int| 0 <= j < stack.len() && stack[j] == x as usize;
                assert(more[j] == x as usize);
            }
        }
    }
    assert forall|i: int, j: int| 0 <= i < more.len() && 0 <= j < more.len() && i != j implies more[i]
        != more[j] by {
        if i < stack.len() {
            assert(seen[stack[i] as int]);
        }
        if j < stack.len() {
            assert(seen[stack[j] as int]);
        }
    }
}

/// A list of the cells of a run is as long as the run.
proof fn lemma_run_len(
    cfg: &GameConfig,
    states: Seq<CellState>,
    target: CellState,
    start: int,
    out: Seq<usize>,
)
    requires
        states.len() <= usize::MAX,
        out.no_duplicates(),
        forall|c: usize| #[trigger]
            out.contains(c) <==> run(cfg, states, target, start).contains(c as int),
    ensures
        run(cfg, states, target, start).finite(),
        out.len() == run(cfg, states, target, start).len(),
{
    let found = run(cfg, states, target, start);
    let t = out.map_values(|c: usize| c as int);
    assert(t.no_duplicates()) by {
        assert forall|i: int, j: int| 0 <= i < t.len() && 0 <= j < t.len() && i != j implies t[i]
            != t[j] by {
            assert(out[i] != out[j]);
        }
    }
    t.unique_seq_to_set();
    assert forall|x: int| t.to_set().contains(x) <==> found.contains(x) by {
        if t.to_set().contains(x) {
            let i = choose|i: int| 0 <= i < t.len() && t[i] == x;
            assert(out.contains(out[i]));
        }
        if found.contains(x) {
            lemma_linked(cfg, states, target, start, x);
            assert(out.contains(x as usize));
            let i = choose|i: int| 0 <= i < out.len() && out[i] == x as usize;
            assert(t[i] == x);
        }
    }
    assert(t.to_set() =~= found);
}

/// Orthogonally-connected run of cells sharing `target` state, from `start`.
pub(crate) fn connected(
    cfg: &GameConfig,
    states: &[CellState],
    start: usize,
    target: CellState,
) -> (out: Vec<usize>)
    requires
        cfg.fits(),
        states@.len() == cfg.size(),
        start < cfg.size(),
    ensures
        out@.no_duplicates(),
        forall|c: usize| #[trigger]
            out@.contains(c) <==> run(cfg, states@, target, start as int).contains(c as int),
        run(cfg, states@, target, start as int).finite(),
        out@.len() == run(cfg, states@, target, start as int).len(),
{
    let mut out: Vec<usize> = Vec::new();
    let ghost found = run(cfg, states@, target, start as int);
    let n = cfg.cells();
    proof {
        assert(cfg.width > 0) by (nonlinear_arith)
            requires
                0 <= start < cfg.width * cfg.height,
        ;
    }
    if states[start] == target {
        let mut seen: Vec<bool> = vec![false; n];
        let mut stack: Vec<usize> = Vec::new();
        seen[start] = true;
        stack.push(start);
        proof {
            lemma_link_start(cfg, states@, target, start as int);
            assert(stack@[0] == start);
            assert(stack@.contains(start));
        }
        while stack.len() > 0
            invariant
                cfg.fits(),
                cfg.width > 0,
                n == cfg.size(),
                states@.len() == cfg.size(),
                start < n,
                seen@.len() == n,
                seen@[start as int],
                explored(cfg, states@, target, start as int, seen@, out@, stack@),
                forall|k: int, x: int|
                    #![trigger out@[k], seen@[x]]
                    0 <= k < out@.len() && 0 <= x < n && states@[x] == target
                        && cfg.edge_touching(out@[k] as int, x) ==> seen@[x],
            decreases n - out@.len(),
        {
            let c = stack[stack.len() - 1];
            proof {
                lemma_take_next(cfg, states@, target, start as int, seen@, out@, stack@);
            }
            stack.pop();
            out.push(c);
            let nbs = neighbors4(cfg, c);
            let mut j: usize = 0;
            while j < nbs.len()
                invariant
                    cfg.fits(),
                    cfg.width > 0,
                    n == cfg.size(),
                    states@.len() == cfg.size(),
                    start < n,
                    c < n,
                    seen@.len() == n,
                    seen@[start as int],
                    nbs@ == edge_neighbors(cfg, c as int),
                    j <= nbs@.len(),
                    out@.len() > 0,
                    out@.last() == c,
                    explored(cfg, states@, target, start as int, seen@, out@, stack@),
                    forall|k: int, x: int|
                        #![trigger out@[k], seen@[x]]
                        0 <= k < out@.len() - 1 && 0 <= x < n && states@[x] == target
                            && cfg.edge_touching(out@[k] as int, x) ==> seen@[x],
                    forall|i: int|
                        #![trigger nbs@[i]]
                        0 <= i < j ==> nbs@[i] < n && (states@[nbs@[i] as int] == target
                            ==> seen@[nbs@[i] as int]),
                decreases nbs@.len() - j,
            {
                let nb = nbs[j];
                proof {
                    assert(edge_neighbors(cfg, c as int).contains(nb));
                    lemma_edge_neighbors(cfg, c as int, nb);
                }
                if !seen[nb] && states[nb] == target {
                    proof {
                        assert(out@[out@.len() - 1] == c);
                        lemma_link_step(
                            cfg,
                            states@,
                            target,
                            start as int,
                            c as int,
                            nb as int,
                        );
                        lemma_discover(
                            cfg,
                            states@,
                            target,
                            start as int,
                            seen@,
                            out@,
                            stack@,
                            nb,
                        );
                    }
                    seen[nb] = true;
                    stack.push(nb);
                }
                j += 1;
            }
            proof {
                assert forall|k: int, x: int|
                    #![trigger out@[k], seen@[x]]
                    0 <= k < out@.len() && 0 <= x < n && states@[x] == target
                        && cfg.edge_touching(out@[k] as int, x) implies seen@[x] by {
                    if k == out@.len() - 1 {
                        lemma_edge_neighbors(cfg, c as int, x as usize);
                        let i = choose|i: int| 0 <= i < nbs@.len() && nbs@[i] == x as usize;
                        assert(seen@[nbs@[i] as int]);
                    }
                }
            }
        }
        proof {
            assert forall|c: usize| #[trigger] out@.contains(c) <==> found.contains(c as int) by {
                if found.contains(c as int) {
                    let path = choose|path: Seq<int>| #[trigger]
                        is_path(cfg, states@, target, path) && path[0] == start as int
                            && path.last() == c as int;
                    let within = Set::new(|x: int| 0 <= x < n && seen@[x]);
                    assert forall|a: int, b: int|
                        #![trigger within.contains(a), within.contains(b)]
                        within.contains(a) && 0 <= b < states@.len() && states@[b] == target
                            && cfg.edge_touching(a, b) implies within.contains(b) by {
                        assert(out@.contains(a as usize));
                        let k = choose|k: int| 0 <= k < out@.len() && out@[k] == a as usize;
                        assert(seen@[b]);
                    }
                    lemma_closed(cfg, states@, target, path, within);
                    assert(seen@[c as int]);
                }
                if out@.contains(c) {
                    let k = choose|k: int| 0 <= k < out@.len() && out@[k] == c;
                    assert(seen@[c as int]);
                }
            }
        }
    }
    proof {
        if states@[start as int] != target {
            assert forall|c: usize| #[trigger] out@.contains(c) <==> found.contains(c as int) by {
                if found.contains(c as int) {
                    lemma_linked(cfg, states@, target, start as int, c as int);
                }
            }
        }
        lemma_run_len(cfg, states@, target, start as int, out@);
    }
    out
}

} // verus!
