//! Paths on a grid one row high or one column wide, where every walk runs
//! along a single line.
use crate::astar::{is_path, path_cost, search_post};
use crate::board::{Board, Coord};
use vstd::prelude::*;

verus! {

/// The grid is a single line: one row high (`vertical` false) or one column
/// wide (`vertical` true).
pub open spec fn is_line(board: Board, vertical: bool) -> bool {
    if vertical {
        board.w() == 1
    } else {
        board.h() == 1
    }
}

/// The position of `p` along the line.
pub open spec fn along(p: Coord, vertical: bool) -> int {
    if vertical {
        p.1 as int
    } else {
        p.0 as int
    }
}

/// The position of `p` across the line.
pub open spec fn across(p: Coord, vertical: bool) -> int {
    if vertical {
        p.0 as int
    } else {
        p.1 as int
    }
}

/// The cell at position `x` of the line.
pub open spec fn cell_on(x: int, vertical: bool) -> Coord {
    if vertical {
        (0usize, x as usize)
    } else {
        (x as usize, 0usize)
    }
}

/// The cost of walking along the line from position `a` to position `b`: the
/// entry costs of the cells after `a`, up to and including `b`.
pub open spec fn segment_cost(board: Board, vertical: bool, a: int, b: int) -> nat
    decreases (if a <= b { b - a } else { a - b }),
{
    if a == b {
        0
    } else if a < b {
        segment_cost(board, vertical, a, b - 1) + board.weight(cell_on(b, vertical)) as nat
    } else {
        segment_cost(board, vertical, a, b + 1) + board.weight(cell_on(b, vertical)) as nat
    }
}

/// Every cell of a walk on a line lies at position 0 across it, and each step
/// moves one position along it.
proof fn lemma_line_steps(board: Board, vertical: bool, path: Seq<Coord>)
    requires
        is_line(board, vertical),
        is_path(board, path, path[0], path.last()),
    ensures
        forall|i: int| 0 <= i < path.len() ==> across(#[trigger] path[i], vertical) == 0,
        forall|i: int| 0 <= i < path.len() ==> cell_on(along(#[trigger] path[i], vertical), vertical) == path[i],
        forall|i: int|
            0 <= i < path.len() - 1 ==> along(#[trigger] path[i], vertical) - along(path[i + 1], vertical) == 1
                || along(path[i + 1], vertical) - along(path[i], vertical) == 1,
{
    assert forall|i: int| 0 <= i < path.len() implies across(#[trigger] path[i], vertical) == 0 by {
        assert(board.movable(path[i]));
    }
    assert forall|i: int| 0 <= i < path.len() - 1 implies along(#[trigger] path[i], vertical) - along(path[i + 1], vertical) == 1
        || along(path[i + 1], vertical) - along(path[i], vertical) == 1 by {
        assert(board.movable(path[i]));
        assert(board.movable(path[i + 1]));
    }
}

proof fn lemma_prefix_walk(board: Board, path: Seq<Coord>)
    requires
        is_path(board, path, path[0], path.last()),
        path.len() >= 2,
    ensures
        is_path(board, path.drop_last(), path[0], path.drop_last().last()),
{
    let p = path.drop_last();
    assert forall|i: int| 0 <= i < p.len() - 1 implies crate::board::adjacent(#[trigger] p[i], p[i + 1]) by {
        assert(crate::board::adjacent(path[i], path[i + 1]));
    }
    assert forall|i: int| 0 <= i < p.len() implies board.movable(#[trigger] p[i]) by {
        assert(board.movable(path[i]));
    }
}

/// A walk along the row passes every column between its ends.
proof fn lemma_walk_visits(board: Board, vertical: bool, path: Seq<Coord>, x: int)
    requires
        is_line(board, vertical),
        is_path(board, path, path[0], path.last()),
        along(path[0], vertical) <= x <= along(path.last(), vertical) || along(path.last(), vertical) <= x
            <= along(path[0], vertical),
    ensures
        exists|i: int| 0 <= i < path.len() && along(#[trigger] path[i], vertical) == x,
    decreases path.len(),
{
    lemma_line_steps(board, vertical, path);
    if along(path.last(), vertical) == x {
        assert(along(path[path.len() - 1], vertical) == x);
    } else {
        let p = path.drop_last();
        lemma_prefix_walk(board, path);
        assert(path[path.len() - 2] == p.last());
        lemma_walk_visits(board, vertical, p, x);
        let i = choose|i: int| 0 <= i < p.len() && along(#[trigger] p[i], vertical) == x;
        assert(path[i] == p[i]);
    }
}

/// No walk along the row costs less than the straight walk between its ends.
proof fn lemma_walk_cost_lower(board: Board, vertical: bool, path: Seq<Coord>)
    requires
        is_line(board, vertical),
        is_path(board, path, path[0], path.last()),
    ensures
        path_cost(board, path) >= segment_cost(board, vertical, along(path[0], vertical), along(path.last(), vertical)),
    decreases path.len(),
{
    lemma_line_steps(board, vertical, path);
    if path.len() >= 2 {
        let p = path.drop_last();
        lemma_prefix_walk(board, path);
        lemma_walk_cost_lower(board, vertical, p);
        let a = along(path[0], vertical);
        let b = along(path.last(), vertical);
        let c = along(p.last(), vertical);
        assert(p.last() == path[path.len() - 2]);
        assert(path.last() == path[path.len() - 1]);
        assert(path.last() == cell_on(b, vertical));
        assert(path_cost(board, path) == path_cost(board, p) + board.weight(cell_on(b, vertical)));
        assert(path_cost(board, p) >= segment_cost(board, vertical, a, c));
        lemma_segment_step(board, vertical, a, b);
        lemma_segment_step(board, vertical, a, c);
    }
}

proof fn lemma_segment_step(board: Board, vertical: bool, a: int, b: int)
    ensures
        a < b ==> segment_cost(board, vertical, a, b) == segment_cost(board, vertical, a, b - 1)
            + board.weight(cell_on(b, vertical)),
        a > b ==> segment_cost(board, vertical, a, b) == segment_cost(board, vertical, a, b + 1)
            + board.weight(cell_on(b, vertical)),
{
}

/// A walk along the row that never repeats a cell costs exactly the straight walk.
proof fn lemma_simple_walk_cost(board: Board, vertical: bool, path: Seq<Coord>)
    requires
        is_line(board, vertical),
        is_path(board, path, path[0], path.last()),
        path.no_duplicates(),
    ensures
        path_cost(board, path) == segment_cost(board, vertical, along(path[0], vertical), along(path.last(), vertical)),
    decreases path.len(),
{
    lemma_line_steps(board, vertical, path);
    if path.len() >= 2 {
        let p = path.drop_last();
        let n = path.len();
        lemma_prefix_walk(board, path);
        assert(p.no_duplicates()) by {
            assert forall|i: int, j: int| 0 <= i < p.len() && 0 <= j < p.len() && i != j implies p[i] != p[j] by {
                assert(path[i] != path[j]);
            }
        }
        lemma_simple_walk_cost(board, vertical, p);
        let a = along(path[0], vertical);
        let b = along(path.last(), vertical);
        let c = along(p.last(), vertical);
        assert(p.last() == path[n - 2]);
        assert(path.last() == path[n - 1]);
        assert(path.last() == cell_on(b, vertical));
        if (c == b + 1 && a <= b) || (c == b - 1 && a >= b) {
            lemma_walk_visits(board, vertical, p, b);
            let i = choose|i: int| 0 <= i < p.len() && along(#[trigger] p[i], vertical) == b;
            assert(path[i] == p[i]);
            assert(path[i] == path[n - 1]);
        }
        if c == b + 1 {
            assert(segment_cost(board, vertical, a, b) == segment_cost(board, vertical, a, b + 1) + board.weight(path.last()));
        } else {
            assert(segment_cost(board, vertical, a, b) == segment_cost(board, vertical, a, b - 1) + board.weight(path.last()));
        }
    }
}

/// On a grid one row high or one column wide, the path that search finds costs
/// exactly the entry costs of the cells after `start` up to `end`, and no path
/// from `start` to `end` costs less.
pub proof fn lemma_corridor_optimal(
    board: Board,
    vertical: bool,
    start: Coord,
    end: Coord,
    r: Result<Option<Vec<Coord>>, crate::astar::SearchError>,
)
    requires
        search_post(board, start, end, r),
        is_line(board, vertical),
    ensures
        r matches Ok(Some(path)) ==> {
            &&& path_cost(board, path@) == segment_cost(board, vertical, along(start, vertical), along(end, vertical))
            &&& forall|other: Seq<Coord>|
                is_path(board, other, start, end) ==> path_cost(board, other) >= path_cost(board, path@)
        },
{
    if let Ok(Some(found)) = r {
        lemma_simple_walk_cost(board, vertical, found@);
        assert forall|other: Seq<Coord>| is_path(board, other, start, end) implies path_cost(board, other)
            >= path_cost(board, found@) by {
            lemma_walk_cost_lower(board, vertical, other);
        }
    }
}

} // verus!
