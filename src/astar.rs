//! A* search over a [`Board`], and the rebuilding of the path it finds.
use crate::board::{adjacent, Board, Coord, Plot};
use crate::distance::{dist_sq, heuristic, heuristic_spec, lemma_heuristic_step, priority_spec, SCALE};
use crate::frontier::{next_post, stale, Entry, Frontier};
use vstd::prelude::*;
use vstd::set_lib::{lemma_int_range, lemma_len_subset, set_int_range};

verus! {

/// Why a search could not be run.
#[derive(PartialEq, Eq, Structural, Clone, Copy, Debug)]
pub enum SearchError {
    /// The start or the end lies outside the grid.
    OutOfBounds,
    /// The start or the end is an obstacle.
    Obstacle,
    /// The grid is too large for the distance estimate: some cell lies about
    /// 2^48 cells or more from the end.
    DistanceOverflow,
}

/// `path` leads from `start` to `end` through movable cells, each step to a
/// touching cell.
pub open spec fn is_path(b: Board, path: Seq<Coord>, start: Coord, end: Coord) -> bool {
    &&& path.len() > 0
    &&& path[0] == start
    &&& path.last() == end
    &&& forall|i: int| 0 <= i < path.len() ==> b.movable(#[trigger] path[i])
    &&& forall|i: int| 0 <= i < path.len() - 1 ==> adjacent(#[trigger] path[i], path[i + 1])
}

/// Some path leads from `start` to `end`.
pub open spec fn reachable(b: Board, start: Coord, end: Coord) -> bool {
    exists|path: Seq<Coord>| is_path(b, path, start, end)
}

/// The cost of walking `path`: the entry costs of its cells after the first.
pub open spec fn path_cost(b: Board, path: Seq<Coord>) -> nat
    decreases path.len(),
{
    if path.len() <= 1 {
        0
    } else {
        path_cost(b, path.drop_last()) + b.weight(path.last()) as nat
    }
}

/// Row-major index of a cell.
pub open spec fn cell_index(b: Board, p: Coord) -> int {
    p.1 * b.w() + p.0
}

/// The cell with row-major index `c`.
#[verifier::opaque]
pub open spec fn cell_at(b: Board, c: int) -> Coord {
    ((c % b.w() as int) as usize, (c / b.w() as int) as usize)
}

proof fn lemma_cell_at_index(b: Board, p: Coord)
    requires
        b.in_bounds(p),
    ensures
        0 <= cell_index(b, p) < b.w() * b.h(),
        cell_at(b, cell_index(b, p)) == p,
{
    reveal(cell_at);
    crate::board::lemma_index_in_range(p.0 as int, p.1 as int, b.w() as int, b.h() as int);
    vstd::arithmetic::div_mod::lemma_fundamental_div_mod_converse(
        cell_index(b, p),
        b.w() as int,
        p.1 as int,
        p.0 as int,
    );
}

proof fn lemma_index_cell_at(b: Board, c: int)
    requires
        0 <= c < b.w() * b.h(),
    ensures
        b.in_bounds(cell_at(b, c)),
        cell_index(b, cell_at(b, c)) == c,
{
    reveal(cell_at);
    b.lemma_dims();
    let w = b.w() as int;
    assert(w > 0) by (nonlinear_arith)
        requires
            0 <= c < w * b.h(),
            w >= 0,
    ;
    vstd::arithmetic::div_mod::lemma_fundamental_div_mod(c, w);
    vstd::arithmetic::div_mod::lemma_mod_pos_bound(c, w);
    vstd::arithmetic::div_mod::lemma_div_pos_is_pos(c, w);
    let y = c / w;
    assert(y < b.h()) by (nonlinear_arith)
        requires
            c == w * y + c % w,
            0 <= c % w,
            c < w * b.h(),
            w > 0,
    ;
    vstd::arithmetic::mul::lemma_mul_is_commutative(w, y);
}

/// What the cost bookkeeping allows still to happen to one cell: a cell not yet
/// reached counts more than any cost it can get.
spec fn cell_budget(v: Option<u128>) -> nat {
    match v {
        None => u128::MAX as nat + 2,
        Some(x) => x as nat + 1,
    }
}

spec fn budget(g: Seq<Option<u128>>) -> nat
    decreases g.len(),
{
    if g.len() == 0 {
        0
    } else {
        budget(g.drop_last()) + cell_budget(g.last())
    }
}

proof fn lemma_budget_update(g: Seq<Option<u128>>, i: int, v: Option<u128>)
    requires
        0 <= i < g.len(),
    ensures
        budget(g.update(i, v)) + cell_budget(g[i]) == budget(g) + cell_budget(v),
    decreases g.len(),
{
    if i == g.len() - 1 {
        assert(g.update(i, v).drop_last() =~= g.drop_last());
    } else {
        lemma_budget_update(g.drop_last(), i, v);
        assert(g.update(i, v).drop_last() =~= g.drop_last().update(i, v));
    }
}

/// The priority of cell `c` at its current cost.
spec fn key(b: Board, goal: Coord, g: Seq<Option<u128>>, c: int) -> int {
    priority_spec(g[c]->Some_0 as nat, cell_at(b, c), goal) as int
}

/// Cell `a` ranks below cell `b`: lower cost, or equal cost and reached earlier.
spec fn rank_lt(g: Seq<Option<u128>>, stamp: Seq<nat>, a: int, b: int) -> bool {
    g[a]->Some_0 < g[b]->Some_0 || (g[a]->Some_0 == g[b]->Some_0 && stamp[a] < stamp[b])
}

/// `c`'s predecessor is a reached cell next to it, of lower rank: lower cost, or
/// equal cost and reached earlier. Ranks fall along predecessor links, so
/// following them ends.
#[verifier::opaque]
spec fn linked(b: Board, g: Seq<Option<u128>>, parent: Seq<Option<usize>>, stamp: Seq<nat>, c: int) -> bool {
    &&& parent[c] is Some
    &&& {
        let p = parent[c]->Some_0 as int;
        &&& 0 <= p < b.w() * b.h()
        &&& g[p] is Some
        &&& b.is_neighbour(cell_at(b, p), cell_at(b, c))
        &&& rank_lt(g, stamp, p, c)
        &&& g[p]->Some_0 + b.weight(cell_at(b, c)) <= g[c]->Some_0
    }
}

/// The predecessor links of every reached cell lead back to `start`.
spec fn tree(b: Board, start: Coord, g: Seq<Option<u128>>, parent: Seq<Option<usize>>, stamp: Seq<nat>) -> bool {
    let n = b.w() * b.h();
    let s = cell_index(b, start);
    &&& g.len() == n
    &&& parent.len() == n
    &&& stamp.len() == n
    &&& b.movable(start)
    &&& g[s] is Some
    &&& parent[s] is None
    &&& forall|c: int| 0 <= c < n && c != s && (#[trigger] g[c]) is Some ==> linked(b, g, parent, stamp, c)
}

/// Cell `c` waits in the frontier at its current priority.
#[verifier::opaque]
spec fn pending(b: Board, goal: Coord, g: Seq<Option<u128>>, fr: Frontier, c: int) -> bool {
    &&& fr.entries().contains((key(b, goal, g, c) as u128, c as usize))
    &&& (fr.finalized()[c] is None || fr.finalized()[c]->Some_0 > key(b, goal, g, c))
}

/// Every neighbour of cell `c` is reached, at no more than the cost of stepping
/// there from `c`.
#[verifier::opaque]
spec fn expanded(b: Board, g: Seq<Option<u128>>, c: int) -> bool {
    forall|q: Coord|
        #[trigger] b.is_neighbour(cell_at(b, c), q) ==> g[cell_index(b, q)] is Some && g[cell_index(
            b,
            q,
        )]->Some_0 <= g[c]->Some_0 + b.weight(q)
}

/// Cell `c` was expanded at its current priority.
#[verifier::opaque]
spec fn closed(b: Board, goal: Coord, g: Seq<Option<u128>>, fr: Frontier, c: int) -> bool {
    &&& fr.finalized()[c] == Some(key(b, goal, g, c) as u128)
    &&& expanded(b, g, c)
}

/// The state of the search between expansions; `skip` is the cell being expanded.
spec fn search_inv(
    b: Board,
    start: Coord,
    goal: Coord,
    g: Seq<Option<u128>>,
    parent: Seq<Option<usize>>,
    fr: Frontier,
    stamp: Seq<nat>,
    clock: nat,
    skip: int,
) -> bool {
    let n = b.w() * b.h();
    &&& n <= usize::MAX
    &&& tree(b, start, g, parent, stamp)
    &&& b.in_bounds(goal)
    &&& g[cell_index(b, start)] == Some(0u128)
    &&& fr.wf()
    &&& fr.finalized().len() == n
    &&& fr.finalized()[cell_index(b, goal)] is None
    &&& forall|e: Entry| #[trigger] fr.entries().contains(e) ==> g[e.1 as int] is Some && e.0 >= key(b, goal, g, e.1 as int)
    &&& forall|c: int| 0 <= c < n && (#[trigger] g[c]) is Some ==> key(b, goal, g, c) <= u128::MAX
    &&& forall|c: int| 0 <= c < n && (#[trigger] g[c]) is None ==> parent[c] is None && fr.finalized()[c] is None
    &&& forall|c: int| 0 <= c < n && c != skip && (#[trigger] g[c]) is Some ==> pending(b, goal, g, fr, c) || closed(b, goal, g, fr, c)
    &&& forall|c: int| 0 <= c < n ==> #[trigger] stamp[c] < clock
}

proof fn lemma_path_reached(b: Board, g: Seq<Option<u128>>, path: Seq<Coord>, start: Coord, goal: Coord, i: int)
    requires
        g.len() == b.w() * b.h(),
        is_path(b, path, start, goal),
        g[cell_index(b, start)] is Some,
        forall|c: int| 0 <= c < b.w() * b.h() && (#[trigger] g[c]) is Some ==> expanded(b, g, c),
        0 <= i < path.len(),
    ensures
        g[cell_index(b, path[i])] is Some,
    decreases i,
{
    if i > 0 {
        lemma_path_reached(b, g, path, start, goal, i - 1);
        lemma_cell_at_index(b, path[i - 1]);
        let c = cell_index(b, path[i - 1]);
        assert(b.is_neighbour(cell_at(b, c), path[i]));
        assert(expanded(b, g, c));
        reveal(expanded);
    }
}

/// With the frontier spent, the reached cells are closed under taking a step, so
/// a goal not among them cannot be reached at all.
proof fn lemma_exhausted(
    b: Board,
    start: Coord,
    goal: Coord,
    g: Seq<Option<u128>>,
    parent: Seq<Option<usize>>,
    fr0: Frontier,
    fr1: Frontier,
    stamp: Seq<nat>,
    clock: nat,
)
    requires
        search_inv(b, start, goal, g, parent, fr0, stamp, clock, -1),
        next_post(fr0, fr1, None),
    ensures
        !reachable(b, start, goal),
{
    reveal(pending);
    reveal(closed);
    let n = b.w() * b.h();
    lemma_cell_at_index(b, start);
    lemma_cell_at_index(b, goal);
    assert forall|c: int| 0 <= c < n && (#[trigger] g[c]) is Some implies expanded(b, g, c) by {
        if pending(b, goal, g, fr0, c) {
            assert(stale(fr0.finalized(), (key(b, goal, g, c) as u128, c as usize)));
        }
    }
    let t = cell_index(b, goal);
    if g[t] is Some {
        assert(pending(b, goal, g, fr0, t) || closed(b, goal, g, fr0, t));
        assert(stale(fr0.finalized(), (key(b, goal, g, t) as u128, t as usize)));
    }
    if reachable(b, start, goal) {
        let path = choose|path: Seq<Coord>| is_path(b, path, start, goal);
        lemma_path_reached(b, g, path, start, goal, path.len() - 1);
    }
}

/// Popping cell `c` from the frontier finds it pending at its current priority,
/// and records that priority as final.
proof fn lemma_popped(
    b: Board,
    start: Coord,
    goal: Coord,
    g: Seq<Option<u128>>,
    parent: Seq<Option<usize>>,
    fr0: Frontier,
    fr1: Frontier,
    stamp: Seq<nat>,
    clock: nat,
    c: usize,
)
    requires
        search_inv(b, start, goal, g, parent, fr0, stamp, clock, -1),
        next_post(fr0, fr1, Some(c)),
        fr1.wf(),
        c != cell_index(b, goal),
    ensures
        search_inv(b, start, goal, g, parent, fr1, stamp, clock, c as int),
        c < b.w() * b.h(),
        g[c as int] is Some,
        fr1.finalized()[c as int] == Some(key(b, goal, g, c as int) as u128),
{
    reveal(pending);
    reveal(closed);
    lemma_cell_at_index(b, goal);
    let n = b.w() * b.h();
    let v0 = fr0.finalized();
    let p = fr1.finalized()[c as int]->Some_0;
    assert(fr0.entries().contains((p, c)));
    let k = key(b, goal, g, c as int);
    if closed(b, goal, g, fr0, c as int) {
        assert(stale(v0, (p, c)));
    }
    assert(pending(b, goal, g, fr0, c as int));
    assert(!stale(v0, (k as u128, c)));
    assert(p == k);
    assert forall|d: int| 0 <= d < n && d != c && (#[trigger] g[d]) is Some implies pending(b, goal, g, fr1, d)
        || closed(b, goal, g, fr1, d) by {
        if pending(b, goal, g, fr0, d) {
            let e = (key(b, goal, g, d) as u128, d as usize);
            assert(fr0.entries().contains(e) && !stale(v0, e));
            assert(fr1.entries().contains(e));
        }
    }
    assert forall|e: Entry| #[trigger] fr1.entries().contains(e) implies g[e.1 as int] is Some && e.0 >= key(
        b,
        goal,
        g,
        e.1 as int,
    ) by {
        assert(fr0.entries().contains(e));
    }
}

/// Relaxing neighbour `qi` of the cell `c` under expansion to the lower cost
/// `cost`, with `c` as its predecessor, keeps the invariant.
proof fn lemma_relaxed(
    b: Board,
    start: Coord,
    goal: Coord,
    g: Seq<Option<u128>>,
    parent: Seq<Option<usize>>,
    fr0: Frontier,
    fr1: Frontier,
    stamp: Seq<nat>,
    clock: nat,
    c: int,
    qi: int,
    cost: u128,
)
    requires
        search_inv(b, start, goal, g, parent, fr0, stamp, clock, c),
        0 <= c < b.w() * b.h(),
        0 <= qi < b.w() * b.h(),
        g[c] is Some,
        fr0.finalized()[c] == Some(key(b, goal, g, c) as u128),
        b.is_neighbour(cell_at(b, c), cell_at(b, qi)),
        cost == g[c]->Some_0 + b.weight(cell_at(b, qi)),
        g[qi] is None || cost < g[qi]->Some_0,
        priority_spec(cost as nat, cell_at(b, qi), goal) <= u128::MAX,
        fr1.wf(),
        fr1.finalized() == fr0.finalized(),
        fr1.entries() == fr0.entries().push(
            (priority_spec(cost as nat, cell_at(b, qi), goal) as u128, qi as usize),
        ),
    ensures
        ({
            let g1 = g.update(qi, Some(cost));
            &&& search_inv(b, start, goal, g1, parent.update(qi, Some(c as usize)), fr1, stamp.update(qi, clock), clock + 1, c)
            &&& fr1.finalized()[c] == Some(key(b, goal, g1, c) as u128)
            &&& budget(g1) < budget(g)
        }),
{
    let n = b.w() * b.h();
    let g1 = g.update(qi, Some(cost));
    let parent1 = parent.update(qi, Some(c as usize));
    let stamp1 = stamp.update(qi, clock);
    let s = cell_index(b, start);
    lemma_cell_at_index(b, start);
    lemma_cell_at_index(b, goal);
    assert(qi != c);
    assert(qi != s);
    assert(key(b, goal, g1, qi) == priority_spec(cost as nat, cell_at(b, qi), goal));
    assert forall|d: int| 0 <= d < n && d != s && (#[trigger] g1[d]) is Some implies linked(b, g1, parent1, stamp1, d) by {
        reveal(linked);
        if d != qi {
            assert(linked(b, g, parent, stamp, d));
        }
    }
    assert forall|e: Entry| #[trigger] fr1.entries().contains(e) implies g1[e.1 as int] is Some && e.0 >= key(
        b,
        goal,
        g1,
        e.1 as int,
    ) by {
        let i = choose|i: int| 0 <= i < fr1.entries().len() && fr1.entries()[i] == e;
        if i < fr0.entries().len() {
            assert(fr0.entries().contains(e));
        }
    }
    assert forall|d: int| 0 <= d < n && d != c && (#[trigger] g1[d]) is Some implies pending(b, goal, g1, fr1, d)
        || closed(b, goal, g1, fr1, d) by {
        reveal(pending);
        reveal(closed);
        if d == qi {
            assert(fr1.entries()[fr0.entries().len() as int] == (key(b, goal, g1, qi) as u128, qi as usize));
        } else {
            if pending(b, goal, g, fr0, d) {
                let e = (key(b, goal, g, d) as u128, d as usize);
                let i = choose|i: int| 0 <= i < fr0.entries().len() && fr0.entries()[i] == e;
                assert(fr1.entries()[i] == e);
            } else {
                assert(closed(b, goal, g, fr0, d));
                assert(expanded(b, g1, d)) by {
                    reveal(expanded);
                    assert forall|q: Coord| #[trigger] b.is_neighbour(cell_at(b, d), q) implies g1[cell_index(b, q)] is Some
                        && g1[cell_index(b, q)]->Some_0 <= g1[d]->Some_0 + b.weight(q) by {
                        lemma_cell_at_index(b, q);
                        assert(g[cell_index(b, q)] is Some);
                    }
                }
            }
        }
    }
    assert forall|d: int| 0 <= d < n implies #[trigger] stamp1[d] < clock + 1 by {
        assert(stamp[d] < clock);
    }
    lemma_budget_update(g, qi, Some(cost));
}

/// Every step of the grid costs at least 2: the distance estimate then never
/// overestimates, and the search finds a cheapest path.
pub open spec fn steps_cost_two(board: Board) -> bool {
    forall|p: Coord| #[trigger] board.movable(p) ==> board.weight(p) >= 2
}

/// A path that follows predecessor links costs no more than the recorded cost
/// of its last cell.
proof fn lemma_chain_cost(b: Board, start: Coord, g: Seq<Option<u128>>, parent: Seq<Option<usize>>, stamp: Seq<nat>, path: Seq<Coord>)
    requires
        tree(b, start, g, parent, stamp),
        b.w() * b.h() <= usize::MAX,
        is_path(b, path, start, path.last()),
        forall|i: int|
            0 < i < path.len() ==> parent[cell_index(b, #[trigger] path[i])] == Some(
                cell_index(b, path[i - 1]) as usize,
            ),
        g[cell_index(b, path.last())] is Some,
    ensures
        path_cost(b, path) <= g[cell_index(b, path.last())]->Some_0,
    decreases path.len(),
{
    if path.len() >= 2 {
        let p = path.drop_last();
        let n = path.len();
        assert(p.last() == path[n - 2]);
        assert(path.last() == path[n - 1]);
        let c = cell_index(b, path.last());
        assert(b.movable(path.last()));
        lemma_cell_at_index(b, path.last());
        lemma_cell_at_index(b, start);
        assert(parent[c] == Some(cell_index(b, path[n - 2]) as usize));
        assert(c != cell_index(b, start));
        assert(linked(b, g, parent, stamp, c));
        lemma_cell_at_index(b, path[n - 2]);
        let pc = cell_index(b, path[n - 2]);
        assert(g[pc] is Some && g[pc]->Some_0 + b.weight(path.last()) <= g[c]->Some_0) by {
            reveal(linked);
        }
        assert forall|i: int| 0 < i < p.len() implies parent[cell_index(b, #[trigger] p[i])] == Some(
            cell_index(b, p[i - 1]) as usize,
        ) by {
            assert(p[i] == path[i] && p[i - 1] == path[i - 1]);
        }
        assert forall|i: int| 0 <= i < p.len() implies b.movable(#[trigger] p[i]) by {
            assert(b.movable(path[i]));
        }
        assert forall|i: int| 0 <= i < p.len() - 1 implies adjacent(#[trigger] p[i], p[i + 1]) by {
            assert(adjacent(path[i], path[i + 1]));
        }
        lemma_chain_cost(b, start, g, parent, stamp, p);
    }
}

/// Along a walk whose first `i` cells are all closed, cell `i` is reached at no
/// more than the cost of the walk up to it.
proof fn lemma_settled_prefix(b: Board, start: Coord, goal: Coord, g: Seq<Option<u128>>, fr: Frontier, q: Seq<Coord>, i: int)
    requires
        g.len() == b.w() * b.h(),
        g[cell_index(b, start)] == Some(0u128),
        is_path(b, q, start, q.last()),
        0 <= i < q.len(),
        forall|k: int| 0 <= k < i ==> closed(b, goal, g, fr, cell_index(b, #[trigger] q[k])),
    ensures
        g[cell_index(b, q[i])] is Some,
        g[cell_index(b, q[i])]->Some_0 <= path_cost(b, q.subrange(0, i + 1)),
    decreases i,
{
    if i > 0 {
        lemma_settled_prefix(b, start, goal, g, fr, q, i - 1);
        let c = cell_index(b, q[i - 1]);
        assert(closed(b, goal, g, fr, c));
        reveal(closed);
        reveal(expanded);
        assert(b.movable(q[i - 1]));
        lemma_cell_at_index(b, q[i - 1]);
        assert(b.is_neighbour(cell_at(b, c), q[i]));
        assert(q.subrange(0, i + 1).drop_last() =~= q.subrange(0, i));
    }
}

/// The first cell of the walk `q` from `i` on that is not closed.
proof fn lemma_first_open(b: Board, goal: Coord, g: Seq<Option<u128>>, fr: Frontier, q: Seq<Coord>, i: int) -> (j: int)
    requires
        0 <= i < q.len(),
        !closed(b, goal, g, fr, cell_index(b, q.last())),
        forall|k: int| 0 <= k < i ==> closed(b, goal, g, fr, cell_index(b, #[trigger] q[k])),
    ensures
        i <= j < q.len(),
        !closed(b, goal, g, fr, cell_index(b, q[j])),
        forall|k: int| 0 <= k < j ==> closed(b, goal, g, fr, cell_index(b, #[trigger] q[k])),
    decreases q.len() - i,
{
    if !closed(b, goal, g, fr, cell_index(b, q[i])) {
        i
    } else {
        assert(i != q.len() - 1);
        lemma_first_open(b, goal, g, fr, q, i + 1)
    }
}

/// With steps costing at least 2, the estimate at cell `j` of a walk plus the
/// cost up to it is at most the cost of the whole walk plus the estimate at its end.
proof fn lemma_estimate_suffix(b: Board, goal: Coord, q: Seq<Coord>, j: int)
    requires
        steps_cost_two(b),
        is_path(b, q, q[0], q.last()),
        0 <= j < q.len(),
    ensures
        heuristic_spec(q[j], goal) + SCALE * path_cost(b, q.subrange(0, j + 1)) <= SCALE * path_cost(b, q)
            + heuristic_spec(q.last(), goal),
    decreases q.len() - j,
{
    if j == q.len() - 1 {
        assert(q.subrange(0, j + 1) =~= q);
    } else {
        lemma_estimate_suffix(b, goal, q, j + 1);
        assert(q.subrange(0, j + 2).drop_last() =~= q.subrange(0, j + 1));
        assert(adjacent(q[j], q[j + 1]));
        assert(b.movable(q[j + 1]));
        lemma_heuristic_step(q[j], q[j + 1], goal);
    }
}

/// When the goal is handed out by the frontier, its recorded cost is no more
/// than the cost of any walk to it, provided every step costs at least 2.
proof fn lemma_goal_cheapest(
    b: Board,
    start: Coord,
    goal: Coord,
    g: Seq<Option<u128>>,
    parent: Seq<Option<usize>>,
    fr0: Frontier,
    fr1: Frontier,
    stamp: Seq<nat>,
    clock: nat,
    q: Seq<Coord>,
)
    requires
        search_inv(b, start, goal, g, parent, fr0, stamp, clock, -1),
        next_post(fr0, fr1, Some(cell_index(b, goal) as usize)),
        steps_cost_two(b),
        is_path(b, q, start, goal),
    ensures
        g[cell_index(b, goal)] is Some,
        g[cell_index(b, goal)]->Some_0 <= path_cost(b, q),
{
    reveal(pending);
    lemma_cell_at_index(b, goal);
    lemma_cell_at_index(b, start);
    let t = cell_index(b, goal);
    let v0 = fr0.finalized();
    let p = fr1.finalized()[t]->Some_0;
    assert(fr0.entries().contains((p, t as usize)));
    assert(!closed(b, goal, g, fr0, t)) by {
        reveal(closed);
    }
    assert(q.last() == goal);
    let j = lemma_first_open(b, goal, g, fr0, q, 0);
    lemma_settled_prefix(b, start, goal, g, fr0, q, j);
    let x = cell_index(b, q[j]);
    assert(b.movable(q[j]));
    lemma_cell_at_index(b, q[j]);
    assert(pending(b, goal, g, fr0, x) || closed(b, goal, g, fr0, x));
    let e = (key(b, goal, g, x) as u128, x as usize);
    assert(fr0.entries().contains(e) && !stale(v0, e));
    assert(!crate::frontier::entry_lt(e, (p, t as usize)));
    lemma_estimate_suffix(b, goal, q, j);
    assert(heuristic_spec(goal, goal) == 0) by {
        reveal(crate::distance::heuristic_spec);
        assert(dist_sq(goal, goal) == 0);
        assert(crate::distance::floor_sqrt(0) == 0);
    }
    assert(q[0] == start);
}

/// `w` is a walk from `start` to cell `c` that repeats no cell and costs exactly
/// the recorded cost of `c`; no cell on it is recorded at more than the cost of
/// the walk up to that cell.
#[verifier::opaque]
spec fn walk_ok(b: Board, start: Coord, g: Seq<Option<u128>>, w: Seq<Coord>, c: int) -> bool {
    &&& is_path(b, w, start, cell_at(b, c))
    &&& w.no_duplicates()
    &&& path_cost(b, w) == g[c]->Some_0
    &&& forall|i: int|
        0 <= i < w.len() ==> (#[trigger] g[cell_index(b, w[i])]) is Some && g[cell_index(b, w[i])]->Some_0
            <= path_cost(b, w.subrange(0, i + 1))
}

/// Every reached cell has such a walk.
spec fn walks(b: Board, start: Coord, g: Seq<Option<u128>>, ws: Seq<Seq<Coord>>) -> bool {
    &&& ws.len() == b.w() * b.h()
    &&& forall|c: int| 0 <= c < b.w() * b.h() && (#[trigger] g[c]) is Some ==> walk_ok(b, start, g, ws[c], c)
}

proof fn lemma_prefix_cost(b: Board, w: Seq<Coord>, i: int)
    requires
        0 <= i < w.len(),
    ensures
        path_cost(b, w.subrange(0, i + 1)) <= path_cost(b, w),
    decreases w.len(),
{
    if i < w.len() - 1 {
        lemma_prefix_cost(b, w.drop_last(), i);
        assert(w.drop_last().subrange(0, i + 1) =~= w.subrange(0, i + 1));
    } else {
        assert(w.subrange(0, i + 1) =~= w);
    }
}

proof fn lemma_cost_bound(b: Board, w: Seq<Coord>)
    requires
        w.len() >= 1,
    ensures
        path_cost(b, w) <= (w.len() - 1) * u32::MAX,
    decreases w.len(),
{
    if w.len() >= 2 {
        lemma_cost_bound(b, w.drop_last());
    }
}

/// A walk that repeats no cell has at most as many cells as the grid.
proof fn lemma_simple_len(b: Board, w: Seq<Coord>)
    requires
        forall|i: int| 0 <= i < w.len() ==> b.in_bounds(#[trigger] w[i]),
        w.no_duplicates(),
    ensures
        w.len() <= b.w() * b.h(),
{
    let n = (b.w() * b.h()) as int;
    let t = w.map_values(|p: Coord| cell_index(b, p));
    assert forall|i: int, j: int| 0 <= i < t.len() && 0 <= j < t.len() && i != j implies t[i] != t[j] by {
        lemma_cell_at_index(b, w[i]);
        lemma_cell_at_index(b, w[j]);
    }
    assert(t.no_duplicates());
    t.unique_seq_to_set();
    assert forall|x: int| t.to_set().contains(x) implies set_int_range(0, n).contains(x) by {
        assert(t.contains(x));
        let i = choose|i: int| 0 <= i < t.len() && t[i] == x;
        lemma_cell_at_index(b, w[i]);
    }
    lemma_int_range(0, n);
    lemma_len_subset(t.to_set(), set_int_range(0, n));
}

/// A recorded cost is at most the grid's number of cells times the largest step cost.
proof fn lemma_cost_fits(b: Board, start: Coord, g: Seq<Option<u128>>, ws: Seq<Seq<Coord>>, c: int)
    requires
        walks(b, start, g, ws),
        0 <= c < b.w() * b.h(),
        g[c] is Some,
    ensures
        g[c]->Some_0 <= b.w() * b.h() * u32::MAX,
{
    reveal(walk_ok);
    assert(walk_ok(b, start, g, ws[c], c));
    let w = ws[c];
    lemma_simple_len(b, w);
    lemma_cost_bound(b, w);
    let n = b.w() * b.h();
    assert((w.len() - 1) * u32::MAX <= n * u32::MAX) by (nonlinear_arith)
        requires
            w.len() <= n,
    ;
}

/// Extending the walk of the expanded cell `c` by its neighbour `qi` gives a walk
/// for `qi` at its new cost.
proof fn lemma_walks_relaxed(
    b: Board,
    start: Coord,
    g: Seq<Option<u128>>,
    ws: Seq<Seq<Coord>>,
    c: int,
    qi: int,
    cost: u128,
)
    requires
        walks(b, start, g, ws),
        g.len() == b.w() * b.h(),
        0 <= c < b.w() * b.h(),
        0 <= qi < b.w() * b.h(),
        g[c] is Some,
        b.is_neighbour(cell_at(b, c), cell_at(b, qi)),
        cost == g[c]->Some_0 + b.weight(cell_at(b, qi)),
        g[qi] is None || cost < g[qi]->Some_0,
    ensures
        walks(b, start, g.update(qi, Some(cost)), ws.update(qi, ws[c].push(cell_at(b, qi)))),
{
    reveal(walk_ok);
    let n = b.w() * b.h();
    let g1 = g.update(qi, Some(cost));
    let ws1 = ws.update(qi, ws[c].push(cell_at(b, qi)));
    let q = cell_at(b, qi);
    let w0 = ws[c];
    let w = w0.push(q);
    assert(walk_ok(b, start, g, w0, c));
    lemma_index_cell_at(b, qi);
    assert forall|i: int| 0 <= i < w0.len() implies w0[i] != q by {
        lemma_prefix_cost(b, w0, i);
        assert(g[cell_index(b, w0[i])] is Some);
    }
    assert(w.drop_last() =~= w0);
    assert(w.no_duplicates());
    assert forall|i: int| 0 <= i < w.len() - 1 implies adjacent(#[trigger] w[i], w[i + 1]) by {
        if i < w0.len() - 1 {
            assert(adjacent(w0[i], w0[i + 1]));
        }
    }
    assert forall|i: int| 0 <= i < w.len() implies b.movable(#[trigger] w[i]) by {
        if i < w0.len() {
            assert(b.movable(w0[i]));
        }
    }
    assert forall|i: int| 0 <= i < w.len() implies (#[trigger] g1[cell_index(b, w[i])]) is Some && g1[cell_index(b, w[i])]->Some_0
        <= path_cost(b, w.subrange(0, i + 1)) by {
        if i < w0.len() {
            assert(w.subrange(0, i + 1) =~= w0.subrange(0, i + 1));
            assert(g[cell_index(b, w0[i])] is Some);
            lemma_cell_at_index(b, w0[i]);
        } else {
            assert(w.subrange(0, i + 1) =~= w);
            assert(path_cost(b, w) == path_cost(b, w0) + b.weight(q));
        }
    }
    assert(walk_ok(b, start, g1, w, qi));
    assert forall|d: int| 0 <= d < n && (#[trigger] g1[d]) is Some implies walk_ok(b, start, g1, ws1[d], d) by {
        if d != qi {
            assert(walk_ok(b, start, g, ws[d], d));
            let wd = ws[d];
            assert forall|i: int| 0 <= i < wd.len() implies (#[trigger] g1[cell_index(b, wd[i])]) is Some && g1[cell_index(b, wd[i])]->Some_0
                <= path_cost(b, wd.subrange(0, i + 1)) by {
                assert(g[cell_index(b, wd[i])] is Some);
                lemma_cell_at_index(b, wd[i]);
            }
        }
    }
}

/// Walks the predecessor links back from cell `end` to `start` and returns the
/// cells in order from `start` to `end`.
#[verifier::rlimit(40)]
fn get_path(
    board: &Board,
    parent: &Vec<Option<usize>>,
    end: usize,
    Ghost(start): Ghost<Coord>,
    Ghost(g): Ghost<Seq<Option<u128>>>,
    Ghost(stamp): Ghost<Seq<nat>>,
) -> (path: Vec<Coord>)
    requires
        tree(*board, start, g, parent@, stamp),
        end < board.w() * board.h(),
        g[end as int] is Some,
    ensures
        is_path(*board, path@, start, cell_at(*board, end as int)),
        path@.no_duplicates(),
        parent@[cell_index(*board, path@[0])] is None,
        forall|i: int|
            0 < i < path@.len() ==> parent@[cell_index(*board, #[trigger] path@[i])] == Some(
                cell_index(*board, path@[i - 1]) as usize,
            ),
{
    let w = board.width();
    proof {
        reveal(linked);
        reveal(cell_at);
        lemma_index_cell_at(*board, end as int);
        lemma_cell_at_index(*board, start);
    }
    let ghost s = cell_index(*board, start);
    let mut rev: Vec<Coord> = Vec::new();
    rev.push((end % w, end / w));
    let mut cur = end;
    loop
        invariant
            tree(*board, start, g, parent@, stamp),
            s == cell_index(*board, start),
            cell_at(*board, s) == start,
            w == board.w(),
            0 <= cur < board.w() * board.h(),
            g[cur as int] is Some,
            rev@.len() > 0,
            rev@[0] == cell_at(*board, end as int),
            rev@.last() == cell_at(*board, cur as int),
            forall|i: int| 0 <= i < rev@.len() ==> board.movable(#[trigger] rev@[i]),
            forall|i: int| 0 <= i < rev@.len() - 1 ==> adjacent(#[trigger] rev@[i], rev@[i + 1]),
            forall|i: int| 0 <= i < rev@.len() ==> board.in_bounds(#[trigger] rev@[i]) && g[cell_index(*board, rev@[i])] is Some,
            forall|i: int, j: int|
                0 <= i < j < rev@.len() ==> rank_lt(g, stamp, cell_index(*board, #[trigger] rev@[j]), cell_index(*board, #[trigger] rev@[i])),
            forall|i: int|
                0 <= i < rev@.len() - 1 ==> parent@[cell_index(*board, #[trigger] rev@[i])] == Some(
                    cell_index(*board, rev@[i + 1]) as usize,
                ),
            cell_index(*board, rev@.last()) == cur,
        ensures
            parent@[cur as int] is None,
        decreases g[cur as int]->Some_0, stamp[cur as int],
    {
        match parent[cur] {
            None => {
                break;
            },
            Some(p) => {
                proof {
                    reveal(linked);
                    assert(linked(*board, g, parent@, stamp, cur as int));
                    lemma_index_cell_at(*board, p as int);
                    if p as int != s {
                        assert(0 <= p < board.w() * board.h());
                        assert(g[p as int] is Some);
                        assert(linked(*board, g, parent@, stamp, p as int));
                    }
                    assert(board.movable(cell_at(*board, p as int)));
                    lemma_index_cell_at(*board, cur as int);
                    assert(cell_index(*board, rev@.last()) == cur);
                    reveal(cell_at);
                }
                let ghost rev0 = rev@;
                rev.push((p % w, p / w));
                proof {
                    assert(cell_index(*board, rev@.last()) == p);
                    assert forall|i: int| 0 <= i < rev@.len() - 1 implies parent@[cell_index(*board, #[trigger] rev@[i])] == Some(
                        cell_index(*board, rev@[i + 1]) as usize,
                    ) by {
                        if i < rev0.len() - 1 {
                            assert(rev@[i] == rev0[i] && rev@[i + 1] == rev0[i + 1]);
                        } else {
                            assert(rev@[i] == rev0.last());
                        }
                    }
                    assert forall|i: int, j: int|
                        0 <= i < j < rev@.len() implies rank_lt(g, stamp, cell_index(*board, #[trigger] rev@[j]), cell_index(*board, #[trigger] rev@[i])) by {
                        if j == rev@.len() - 1 && i < j - 1 {
                            assert(rank_lt(g, stamp, cell_index(*board, rev0[rev0.len() - 1]), cell_index(*board, rev0[i])));
                        }
                    }
                }
                cur = p;
            },
        }
    }
    proof {
        reveal(linked);
        if cur != s {
            assert(linked(*board, g, parent@, stamp, cur as int));
        }
        assert(rev@.last() == start);
    }
    proof {
        assert forall|i: int, j: int| 0 <= i < j < rev@.len() implies rev@[i] != rev@[j] by {
            assert(rank_lt(g, stamp, cell_index(*board, rev@[j]), cell_index(*board, rev@[i])));
        }
    }
    let mut path: Vec<Coord> = Vec::new();
    let mut k = rev.len();
    while k > 0
        invariant
            k <= rev@.len(),
            path@.len() == rev@.len() - k,
            forall|i: int| 0 <= i < path@.len() ==> path@[i] == rev@[rev@.len() - 1 - i],
        decreases k,
    {
        k -= 1;
        path.push(rev[k]);
    }
    proof {
        let n = rev@.len();
        assert forall|i: int| 0 <= i < path@.len() - 1 implies adjacent(#[trigger] path@[i], path@[i + 1]) by {
            assert(adjacent(rev@[n - 2 - i], rev@[n - 1 - i]));
        }
        assert forall|i: int| 0 <= i < path@.len() implies board.movable(#[trigger] path@[i]) by {
            assert(board.movable(rev@[n - 1 - i]));
        }
        assert forall|i: int, j: int| 0 <= i < path@.len() && 0 <= j < path@.len() && i != j implies path@[i] != path@[j] by {
            assert(rev@[n - 1 - i] != rev@[n - 1 - j]);
        }
        assert forall|i: int| 0 < i < path@.len() implies parent@[cell_index(*board, #[trigger] path@[i])] == Some(
            cell_index(*board, path@[i - 1]) as usize,
        ) by {
            assert(path@[i] == rev@[n - 1 - i]);
            assert(path@[i - 1] == rev@[n - 1 - i + 1]);
        }
        assert(path@[0] == rev@[n - 1]);
        assert(path@.last() == rev@[0]);
    }
    path
}

/// What [`search`] returns: an error exactly for an endpoint outside the grid or
/// on an obstacle; otherwise a path when one is found, and `None` only when none
/// exists; `[start]` when the endpoints coincide; a cheapest path when every
/// step costs at least 2. A grid so large that the
/// distance estimate overflows gives `DistanceOverflow`.
pub open spec fn search_post(
    board: Board,
    start: Coord,
    end: Coord,
    r: Result<Option<Vec<Coord>>, SearchError>,
) -> bool {
    &&& (r matches Err(SearchError::OutOfBounds) <==> !board.in_bounds(start) || !board.in_bounds(end))
    &&& (r matches Err(SearchError::Obstacle) <==> board.in_bounds(start) && board.in_bounds(end) && (
    !board.movable(start) || !board.movable(end)))
    &&& (r matches Err(SearchError::DistanceOverflow) ==> board.movable(start) && board.movable(end)
        && start != end && exists|p: Coord|
        board.in_bounds(p) && dist_sq(p, end) * (SCALE * SCALE) as nat > u128::MAX)
    &&& (r matches Ok(Some(path)) ==> is_path(board, path@, start, end) && path@.no_duplicates())
    &&& (r matches Ok(None) ==> !reachable(board, start, end))
    &&& (board.movable(start) && start == end ==> (r matches Ok(Some(path)) && path@ == seq![start]))
    &&& (steps_cost_two(board) ==> (r matches Ok(Some(path)) ==> forall|q: Seq<Coord>|
        is_path(board, q, start, end) ==> path_cost(board, path@) <= path_cost(board, q)))
}

/// Two searches on the same grid and endpoints agree: on the error for a bad
/// endpoint, on the one-cell path when the endpoints coincide, and, when both
/// run to the end, on whether a path exists.
pub proof fn lemma_search_repeatable(
    board: Board,
    start: Coord,
    end: Coord,
    r1: Result<Option<Vec<Coord>>, SearchError>,
    r2: Result<Option<Vec<Coord>>, SearchError>,
)
    requires
        search_post(board, start, end, r1),
        search_post(board, start, end, r2),
    ensures
        (r1 matches Err(SearchError::OutOfBounds)) == (r2 matches Err(SearchError::OutOfBounds)),
        (r1 matches Err(SearchError::Obstacle)) == (r2 matches Err(SearchError::Obstacle)),
        start == end ==> r1 is Ok == r2 is Ok,
        start == end && r1 is Ok ==> (r1 matches Ok(Some(p1)) && r2 matches Ok(Some(p2)) && p1@ == p2@),
        r1 is Ok && r2 is Ok ==> (r1 matches Ok(Some(_))) == (r2 matches Ok(Some(_))),
{
}

/// A vector of `n` copies of `v`.
fn filled<T: Copy>(n: usize, v: T) -> (r: Vec<T>)
    ensures
        r@ == Seq::new(n as nat, |i: int| v),
{
    let mut r: Vec<T> = Vec::new();
    let mut i: usize = 0;
    while i < n
        invariant
            i <= n,
            r@ == Seq::new(i as nat, |k: int| v),
        decreases n - i,
    {
        r.push(v);
        i += 1;
        assert(r@ =~= Seq::new(i as nat, |k: int| v));
    }
    r
}

/// Finds a path from `start` to `end` on `board` by A* search.
///
/// Cells are expanded in order of cost so far plus the straight-line distance
/// to `end`, ties going to the lower row, then the lower column. `Ok(None)`
/// means that no path exists; an endpoint outside the grid or on an obstacle is
/// an error, not a missing path.
pub fn search(board: Board, start: Coord, end: Coord) -> (r: Result<Option<Vec<Coord>>, SearchError>)
    ensures
        search_post(board, start, end, r),
{
    let w = board.width();
    let h = board.height();
    if start.0 >= w || start.1 >= h || end.0 >= w || end.1 >= h {
        return Err(SearchError::OutOfBounds);
    }
    if let Plot::Obstacle = board.plot(start) {
        return Err(SearchError::Obstacle);
    }
    if let Plot::Obstacle = board.plot(end) {
        return Err(SearchError::Obstacle);
    }
    if start.0 == end.0 && start.1 == end.1 {
        let path = vec![start];
        assert(path@ =~= seq![start]);
        assert(is_path(board, path@, start, end));
        return Ok(Some(path));
    }
    let n = board.cell_count();
    proof {
        lemma_cell_at_index(board, start);
        lemma_cell_at_index(board, end);
    }
    let s = start.1 * w + start.0;
    let t = end.1 * w + end.0;
    let h0 = match heuristic(start, end) {
        Some(v) => v,
        None => {
            return Err(SearchError::DistanceOverflow);
        },
    };
    let mut g: Vec<Option<u128>> = filled(n, None);
    let mut parent: Vec<Option<usize>> = filled(n, None);
    let mut frontier = Frontier::new(n);
    g.set(s, Some(0));
    frontier.enqueue(s, h0);
    let ghost mut stamp: Seq<nat> = Seq::new(n as nat, |i: int| 0nat);
    let ghost mut clock: nat = 1;
    let ghost mut ws: Seq<Seq<Coord>> = Seq::new(n as nat, |i: int| seq![start]);
    proof {
        reveal(linked);
        reveal(pending);
        assert(walk_ok(board, start, g@, ws[s as int], s as int)) by {
            reveal(walk_ok);
            assert(seq![start].subrange(0, 1) =~= seq![start]);
        }
        assert(key(board, end, g@, s as int) == h0);
        assert(frontier.entries()[0] == (h0, s));
        assert(search_inv(board, start, end, g@, parent@, frontier, stamp, clock, -1));
    }
    loop
        invariant
            search_inv(board, start, end, g@, parent@, frontier, stamp, clock, -1),
            walks(board, start, g@, ws),
            w == board.w(),
            n == board.w() * board.h(),
            s == cell_index(board, start),
            t == cell_index(board, end),
            cell_at(board, s as int) == start,
            cell_at(board, t as int) == end,
            start != end,
            board.movable(end),
        decreases budget(g@) + frontier.entries().len(),
    {
        let ghost fr0 = frontier;
        let ghost m0 = budget(g@) + frontier.entries().len();
        let c = match frontier.get_next() {
            None => {
                proof {
                    lemma_exhausted(board, start, end, g@, parent@, fr0, frontier, stamp, clock);
                }
                return Ok(None);
            },
            Some(c) => c,
        };
        if c == t {
            proof {
                assert(fr0.entries().contains((frontier.finalized()[c as int]->Some_0, c)));
            }
            let path = get_path(&board, &parent, t, Ghost(start), Ghost(g@), Ghost(stamp));
            proof {
                lemma_index_cell_at(board, t as int);
                lemma_chain_cost(board, start, g@, parent@, stamp, path@);
                if steps_cost_two(board) {
                    assert forall|q: Seq<Coord>| is_path(board, q, start, end) implies path_cost(board, path@)
                        <= path_cost(board, q) by {
                        lemma_goal_cheapest(board, start, end, g@, parent@, fr0, frontier, stamp, clock, q);
                    }
                }
            }
            return Ok(Some(path));
        }
        proof {
            lemma_popped(board, start, end, g@, parent@, fr0, frontier, stamp, clock, c);
        }
        let gc = match g[c] {
            Some(v) => v,
            None => 0,
        };
        let cur = (c % w, c / w);
        proof {
            reveal(cell_at);
        }
        let nbrs = board.get_neighbours(cur);
        let mut j: usize = 0;
        while j < nbrs.len()
            invariant
                search_inv(board, start, end, g@, parent@, frontier, stamp, clock, c as int),
                walks(board, start, g@, ws),
                w == board.w(),
                n == board.w() * board.h(),
                s == cell_index(board, start),
                t == cell_index(board, end),
                cell_at(board, s as int) == start,
                cell_at(board, t as int) == end,
                start != end,
                board.movable(end),
                0 <= c < n,
                c != t,
                cur == cell_at(board, c as int),
                g@[c as int] == Some(gc),
                frontier.finalized()[c as int] == Some(key(board, end, g@, c as int) as u128),
                j <= nbrs@.len(),
                forall|i: int|
                    0 <= i < nbrs@.len() ==> {
                        &&& board.is_neighbour(cur, (#[trigger] nbrs@[i]).0)
                        &&& nbrs@[i].1 == board.weight(nbrs@[i].0)
                    },
                forall|q: Coord|
                    #[trigger] board.is_neighbour(cur, q) ==> exists|i: int|
                        0 <= i < nbrs@.len() && (#[trigger] nbrs@[i]).0 == q,
                forall|k: int|
                    0 <= k < j ==> g@[cell_index(board, (#[trigger] nbrs@[k]).0)] is Some && g@[cell_index(
                        board,
                        nbrs@[k].0,
                    )]->Some_0 <= gc + nbrs@[k].1,
                budget(g@) + frontier.entries().len() < m0,
            decreases nbrs@.len() - j,
        {
            let (q, cost) = nbrs[j];
            proof {
                lemma_cell_at_index(board, q);
            }
            let qi = q.1 * w + q.0;
            proof {
                lemma_cost_fits(board, start, g@, ws, c as int);
                assert(gc + cost <= 0x1_0000_0000_0000_0000_0000_0000) by (nonlinear_arith)
                    requires
                        gc <= n * u32::MAX,
                        n <= usize::MAX,
                        cost <= u32::MAX,
                ;
            }
            let tentative = gc + cost as u128;
            let better = match g[qi] {
                None => true,
                Some(known) => tentative < known,
            };
            if better {
                let hq = match heuristic(q, end) {
                    Some(v) => v,
                    None => {
                        return Err(SearchError::DistanceOverflow);
                    },
                };
                let priority = tentative * SCALE + hq;
                let ghost g0 = g@;
                let ghost parent0 = parent@;
                let ghost fr1 = frontier;
                g.set(qi, Some(tentative));
                parent.set(qi, Some(c));
                frontier.enqueue(qi, priority);
                proof {
                    lemma_relaxed(board, start, end, g0, parent0, fr1, frontier, stamp, clock, c as int, qi as int, tentative);
                    lemma_walks_relaxed(board, start, g0, ws, c as int, qi as int, tentative);
                    ws = ws.update(qi as int, ws[c as int].push(q));
                    stamp = stamp.update(qi as int, clock);
                    clock = clock + 1;
                }
            }
            proof {
                assert forall|k: int| 0 <= k < j + 1 implies g@[cell_index(board, (#[trigger] nbrs@[k]).0)] is Some
                    && g@[cell_index(board, nbrs@[k].0)]->Some_0 <= gc + nbrs@[k].1 by {
                    if k < j {
                        lemma_cell_at_index(board, nbrs@[k].0);
                    }
                }
            }
            j += 1;
        }
        proof {
            assert(expanded(board, g@, c as int)) by {
                reveal(expanded);
                assert forall|q: Coord| #[trigger] board.is_neighbour(cell_at(board, c as int), q) implies g@[cell_index(board, q)] is Some
                    && g@[cell_index(board, q)]->Some_0 <= g@[c as int]->Some_0 + board.weight(q) by {
                    let i = choose|i: int| 0 <= i < nbrs@.len() && (#[trigger] nbrs@[i]).0 == q;
                }
            }
            assert(closed(board, end, g@, frontier, c as int)) by {
                reveal(closed);
            }
        }
    }
}

} // verus!
