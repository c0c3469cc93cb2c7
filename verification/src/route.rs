//! Paths between points of the canvas, found by A* search and drawn with
//! box-drawing characters.
use vstd::prelude::*;
use crate::xob::{Canvas, ColorCode, Grid, Point, block_placed, bordered, cells, set_cell};
use crate::text::split_on;

verus! {

/// `x` moved by `d` (one of -1, 0, 1) with wrapping arithmetic, as
/// `usize::wrapping_add` moves it.
pub open spec fn step(x: usize, d: int) -> usize {
    if d == 1 {
        if x == usize::MAX {
            0
        } else {
            (x + 1) as usize
        }
    } else if d == -1 {
        if x == 0 {
            usize::MAX
        } else {
            (x - 1) as usize
        }
    } else {
        x
    }
}

/// The four positions next to `p`, in the order down, right, up, left.
pub open spec fn next_to(p: Point) -> Seq<Point> {
    seq![(p.0, step(p.1, 1)), (step(p.0, 1), p.1), (p.0, step(p.1, -1)), (step(p.0, -1), p.1)]
}

/// Whether a path may run over a cell: an empty or line-drawing character,
/// not marked as the inside of a block.
pub open spec fn passable(cell: (char, ColorCode)) -> bool {
    let ch = cell.0;
    (ch == ' ' || ch == '│' || ch == '─' || ch == '+' || ch == '┴' || ch == '┬' || ch == '├' || ch
        == '┤') && cell.1 != 'A'
}

/// Whether `p` lies inside the first row's width and the grid's height.
pub open spec fn within(g: Seq<Seq<(char, ColorCode)>>, p: Point) -> bool {
    p.0 < g[0].len() && p.1 < g.len()
}

/// Whether `p` is a cell a path may step on.
pub open spec fn open_at(g: Seq<Seq<(char, ColorCode)>>, p: Point) -> bool {
    within(g, p) && passable(g[p.1 as int][p.0 as int])
}

/// The candidates that a path may step on, each with step cost 1.
pub open spec fn open_steps(g: Seq<Seq<(char, ColorCode)>>, cs: Seq<Point>) -> Seq<(Point, usize)>
    decreases cs.len(),
{
    if cs.len() == 0 {
        Seq::empty()
    } else {
        let rest = open_steps(g, cs.drop_last());
        if open_at(g, cs.last()) {
            rest.push((cs.last(), 1usize))
        } else {
            rest
        }
    }
}

/// Whether every row reaches the width of the first, the width that
/// `neighbors` looks within.
pub open spec fn rows_reach_width(g: Seq<Seq<(char, ColorCode)>>) -> bool {
    forall|r: int| 0 <= r < g.len() ==> #[trigger] g[r].len() >= g[0].len()
}

/// Whether `neighbors` can look at the cells next to `pos`: the grid has a
/// row, and each neighbour within the first row's width and the grid's
/// height lies inside its own row.
pub open spec fn neighbors_defined(g: Seq<Seq<(char, ColorCode)>>, pos: Point) -> bool {
    &&& g.len() > 0
    &&& forall|i: int|
        0 <= i < 4 && within(g, #[trigger] next_to(pos)[i]) ==> next_to(pos)[i].0 < g[next_to(
            pos,
        )[i].1 as int].len()
}

/// The neighbours of `pos` that a path may step on, each with cost 1.
pub fn neighbors(pos: Point, grid: &Grid) -> (result: Vec<(Point, usize)>)
    requires
        neighbors_defined(cells(*grid), pos),
    ensures
        result@ == open_steps(cells(*grid), next_to(pos)),
{
    let ghost g = cells(*grid);
    let ghost cs = next_to(pos);
    let mut result: Vec<(Point, usize)> = Vec::new();
    let (x, y) = pos;
    let height = grid.len();
    let width = grid[0].len();
    assert(g[0] == grid@[0]@);
    let mut k: usize = 0;
    assert(cs.take(0) =~= Seq::<Point>::empty());
    while k < 4
        invariant
            k <= 4,
            g == cells(*grid),
            cs == next_to(pos),
            pos == (x, y),
            height == g.len(),
            width == g[0].len(),
            neighbors_defined(g, pos),
            result@ == open_steps(g, cs.take(k as int)),
        decreases 4 - k,
    {
        let nx = if k == 1 {
            x.wrapping_add(1)
        } else if k == 3 {
            x.wrapping_add(usize::MAX)
        } else {
            x
        };
        let ny = if k == 0 {
            y.wrapping_add(1)
        } else if k == 2 {
            y.wrapping_add(usize::MAX)
        } else {
            y
        };
        assert((nx, ny) == cs[k as int]);
        assert(cs.take(k + 1).drop_last() =~= cs.take(k as int));
        if nx < width && ny < height {
            assert(within(g, cs[k as int]));
            assert(g[ny as int] == grid@[ny as int]@);
            let cell = grid[ny][nx];
            let ch = cell.0;
            if (ch == ' ' || ch == '│' || ch == '─' || ch == '+' || ch == '┴' || ch == '┬' || ch
                == '├' || ch == '┤') && cell.1 != 'A' {
                result.push(((nx, ny), 1));
            }
        }
        k += 1;
    }
    assert(cs.take(4) =~= cs);
    result
}


/// The Manhattan distance between two points.
pub open spec fn manhattan(p: Point, q: Point) -> int {
    let dx = if p.0 >= q.0 { p.0 - q.0 } else { q.0 - p.0 };
    let dy = if p.1 >= q.1 { p.1 - q.1 } else { q.1 - p.1 };
    dx + dy
}

/// The A* heuristic: the Manhattan distance from `p` to `goal`.
pub fn heuristic(p: Point, goal: Point) -> (h: usize)
    requires
        manhattan(p, goal) <= usize::MAX,
    ensures
        h == manhattan(p, goal),
{
    let dx = if p.0 >= goal.0 {
        p.0 - goal.0
    } else {
        goal.0 - p.0
    };
    let dy = if p.1 >= goal.1 {
        p.1 - goal.1
    } else {
        goal.1 - p.1
    };
    dx + dy
}

/// Whether the search has reached its goal.
pub fn is_goal(p: Point, goal: Point) -> (b: bool)
    ensures
        b == (p == goal),
{
    p.0 == goal.0 && p.1 == goal.1
}

/// Whether `p` names a cell of the grid.
pub open spec fn in_grid(g: Seq<Seq<(char, ColorCode)>>, p: Point) -> bool {
    p.1 < g.len() && p.0 < g[p.1 as int].len()
}

/// Whether an A* search from `start` to `goal` over the grid, and the drawing
/// of what it finds, stay within the machine's arithmetic: the grid has a
/// row and every row reaches the first row's width; its sides and the
/// coordinates of `start` and `goal` fit in `i32`, as the drawing computes
/// steps in `i32`; and a path cost (at most one step per cell) plus a
/// heuristic value (at most the grid's width and height plus the goal's
/// coordinates) fits in `usize`.
pub open spec fn search_ok(g: Seq<Seq<(char, ColorCode)>>, start: Point, goal: Point) -> bool {
    &&& g.len() > 0
    &&& rows_reach_width(g)
    &&& g.len() <= i32::MAX
    &&& g[0].len() <= i32::MAX
    &&& start.0 <= i32::MAX && start.1 <= i32::MAX
    &&& goal.0 <= i32::MAX && goal.1 <= i32::MAX
    &&& g.len() * g[0].len() + g[0].len() + g.len() + goal.0 + goal.1 + 1 <= usize::MAX
}

/// Whether `path` leads from `start` to `goal` over the grid, each step to a
/// neighbouring cell that a path may step on.
pub open spec fn leads(g: Seq<Seq<(char, ColorCode)>>, path: Seq<Point>, start: Point, goal: Point) -> bool {
    &&& path.len() >= 1
    &&& path[0] == start
    &&& path.last() == goal
    &&& forall|i: int| 0 <= i < path.len() - 1 ==> #[trigger] steps_to(g, path[i], path[i + 1])
}

/// Whether a path may step from `a` to `b`: `b` is next to `a` and may be stepped on.
pub open spec fn steps_to(g: Seq<Seq<(char, ColorCode)>>, a: Point, b: Point) -> bool {
    next_to(a).contains(b) && open_at(g, b)
}

/// What the A* search of the `pathfinding` crate returns for this grid:
/// a path from `start` to `goal` with its cost, or nothing.
pub uninterp spec fn astar_route(start: Point, goal: Point, grid: Seq<Seq<(char, ColorCode)>>) -> Option<(Seq<Point>, usize)>;

/// A search result as plain values.
pub open spec fn route_view(r: Option<(Vec<Point>, usize)>) -> Option<(Seq<Point>, usize)> {
    match r {
        Some((path, cost)) => Some((path@, cost)),
        None => None,
    }
}

/// Runs `pathfinding::directed::astar::astar` from `start` to `goal`, with
/// `neighbors` as successors, `heuristic` as heuristic and `is_goal` as the
/// success test.
///
/// Under `search_ok` nothing in the search overflows: the cost of a node is
/// the length of a simple path in the search tree, at most the number of
/// cells, and the heuristic is only taken of nodes inside the grid, where it
/// is at most the grid's width and height plus the goal's coordinates.
///
/// Trusted: the result is the same for the same grid and end points (the
/// search uses a binary heap and an index map with a fixed hasher, nothing
/// random); a path it returns starts at `start`, ends at a node that passes
/// the success test, and steps each time to a successor of the node before,
/// as its source and documentation show.  The documentation also promises
/// that a path is returned whenever one exists, and that it is a shortest
/// one when the heuristic never exceeds the real cost.  Here every step
/// costs 1 and changes one coordinate by 1 (under `search_ok` no step wraps
/// around), so the Manhattan distance never exceeds the cost to the goal,
/// and the returned path is no longer than any path from `start` to `goal`.
/// Which of the shortest paths it picks is not stated.
#[verifier::external_body]
fn astar_on_grid(start: Point, goal: Point, grid: &Grid) -> (r: Option<(Vec<Point>, usize)>)
    requires
        search_ok(cells(*grid), start, goal),
    ensures
        route_view(r) == astar_route(start, goal, cells(*grid)),
        r matches Some((path, _)) ==> leads(cells(*grid), path@, start, goal),
        (exists|q: Seq<Point>| #[trigger] leads(cells(*grid), q, start, goal)) ==> r is Some,
        r matches Some((path, _)) ==> forall|q: Seq<Point>|
            #[trigger] leads(cells(*grid), q, start, goal) ==> path@.len() <= q.len(),
{
    pathfinding::directed::astar::astar(
        &start,
        |p: &Point| neighbors(*p, grid),
        |p: &Point| heuristic(*p, goal),
        |p: &Point| is_goal(*p, goal),
    )
}

/// `g` with the cell at `p` (column, row) set to `v`.
pub open spec fn set_at(g: Seq<Seq<(char, ColorCode)>>, p: Point, v: (char, ColorCode)) -> Seq<Seq<(char, ColorCode)>> {
    g.update(p.1 as int, g[p.1 as int].update(p.0 as int, v))
}

/// `b - a` as a signed number.
pub open spec fn delta(a: usize, b: usize) -> int {
    b as int - a as int
}

/// The line character for a path that comes into `curr` from `prev` and goes
/// on to `next`: straight pieces, the four corners, or `X` for anything else.
pub open spec fn turn_symbol(prev: Point, curr: Point, next: Point) -> char {
    let (ax, ay) = (delta(prev.0, curr.0), delta(prev.1, curr.1));
    let (bx, by) = (delta(curr.0, next.0), delta(curr.1, next.1));
    if (ax == 0 && ay == 1 && bx == 0 && by == 1) || (ax == 0 && ay == -1 && bx == 0 && by == -1) {
        '│'
    } else if (ax == 1 && ay == 0 && bx == 1 && by == 0) || (ax == -1 && ay == 0 && bx == -1 && by
        == 0) {
        '─'
    } else if (ax == 0 && ay == 1 && bx == 1 && by == 0) || (ax == -1 && ay == 0 && bx == 0 && by
        == -1) {
        '└'
    } else if (ax == 1 && ay == 0 && bx == 0 && by == -1) || (ax == 0 && ay == 1 && bx == -1 && by
        == 0) {
        '┘'
    } else if (ax == 0 && ay == -1 && bx == 1 && by == 0) || (ax == -1 && ay == 0 && bx == 0 && by
        == 1) {
        '┌'
    } else if (ax == 0 && ay == -1 && bx == -1 && by == 0) || (ax == 1 && ay == 0 && bx == 0 && by
        == 1) {
        '┐'
    } else {
        'X'
    }
}

/// The character that joins the end of a path to what it runs into, from the
/// symbol before the end, the symbol at the end and the last step.
pub open spec fn connector(prev_sym: char, last_sym: char, dx: int, dy: int) -> char {
    if prev_sym == '└' && last_sym == '─' {
        '─'
    } else if (prev_sym == '─' && last_sym == '│') || last_sym == '┤' {
        '┤'
    } else if (prev_sym == '┐' && last_sym == '│') || (prev_sym == '└' && last_sym == '│') || (
    prev_sym == '└' && last_sym == '├') || last_sym == '├' || (prev_sym == '┘' && last_sym == '│'
        && dx == -1 && dy == 0) {
        '├'
    } else if (prev_sym == '│' && last_sym == '─' && dx == 0 && dy == -1) || last_sym == '┬' || (
    prev_sym == '┘' && last_sym == '─' && dx == 0 && dy == -1) {
        '┬'
    } else if (prev_sym == '│' && last_sym == '─' && dx == 0 && dy == 1) || last_sym == '┴' {
        '┴'
    } else if (prev_sym == '┘' && last_sym == '│') || (prev_sym == '│' && last_sym == '│') {
        '│'
    } else if last_sym == '─' {
        '─'
    } else {
        'X'
    }
}

/// The grid after the first `k` inner points of the path got their line
/// characters, in path order.
pub open spec fn draw_turns(g: Seq<Seq<(char, ColorCode)>>, path: Seq<Point>, color: ColorCode, k: int) -> Seq<Seq<(char, ColorCode)>>
    decreases k,
{
    if k <= 0 {
        g
    } else {
        let g1 = draw_turns(g, path, color, k - 1);
        set_at(g1, path[k], (turn_symbol(path[k - 1], path[k], path[k + 1]), color))
    }
}

/// The grid after a path of at least two points is drawn: every inner point
/// gets its line character, then the end point gets the connector chosen
/// from the symbols now at the last two points and the last step.
pub open spec fn drawn(g: Seq<Seq<(char, ColorCode)>>, path: Seq<Point>, color: ColorCode) -> Seq<Seq<(char, ColorCode)>> {
    let n = path.len() as int;
    let g1 = draw_turns(g, path, color, n - 2);
    let prev = path[n - 2];
    let last = path[n - 1];
    set_at(
        g1,
        last,
        (
            connector(
                g1[prev.1 as int][prev.0 as int].0,
                g1[last.1 as int][last.0 as int].0,
                delta(prev.0, last.0),
                delta(prev.1, last.1),
            ),
            color,
        ),
    )
}

/// Whether two grids have the same rows of the same lengths.
pub open spec fn same_shape(a: Seq<Seq<(char, ColorCode)>>, b: Seq<Seq<(char, ColorCode)>>) -> bool {
    a.len() == b.len() && forall|r: int| 0 <= r < a.len() ==> #[trigger] a[r].len() == b[r].len()
}

/// Whether `draw_path` can draw the path: it has two points or more, its
/// inner points and its last two points are cells of the grid, and its
/// coordinates fit in `i32`.
pub open spec fn drawable(g: Seq<Seq<(char, ColorCode)>>, path: Seq<Point>) -> bool {
    &&& path.len() >= 2
    &&& forall|i: int| 1 <= i < path.len() ==> in_grid(g, #[trigger] path[i])
    &&& in_grid(g, path[path.len() - 2])
    &&& forall|i: int| 0 <= i < path.len() ==> (#[trigger] path[i]).0 <= i32::MAX && path[i].1 <= i32::MAX
}

pub proof fn lemma_draw_turns_shape(g: Seq<Seq<(char, ColorCode)>>, path: Seq<Point>, color: ColorCode, k: int)
    requires
        k <= path.len() - 2,
        forall|i: int| 1 <= i < path.len() ==> in_grid(g, #[trigger] path[i]),
    ensures
        same_shape(draw_turns(g, path, color, k), g),
    decreases k,
{
    if k > 0 {
        lemma_draw_turns_shape(g, path, color, k - 1);
        assert(in_grid(g, path[k]));
    }
}

/// The offset of `q` from `c`, as (columns, rows).
pub open spec fn offset(c: Point, q: Point) -> (int, int) {
    (q.0 as int - c.0 as int, q.1 as int - c.1 as int)
}

/// Whether the offsets `u` and `v` are the sides `a` and `b`, in either order.
pub open spec fn joins(u: (int, int), v: (int, int), a: (int, int), b: (int, int)) -> bool {
    (u == a && v == b) || (u == b && v == a)
}

/// Whether the offsets `u` and `v` are two different sides of a cell (up,
/// down, left or right, each one cell away).
pub open spec fn two_sides(u: (int, int), v: (int, int)) -> bool {
    ||| joins(u, v, (0, -1), (0, 1))
    ||| joins(u, v, (-1, 0), (1, 0))
    ||| joins(u, v, (0, -1), (1, 0))
    ||| joins(u, v, (0, -1), (-1, 0))
    ||| joins(u, v, (0, 1), (1, 0))
    ||| joins(u, v, (0, 1), (-1, 0))
}

/// The line character at a point of a path depends only on the two sides of
/// the cell that the path joins there, not on the way it is walked: up and
/// down give `│`, left and right `─`, up and right `└`, up and left `┘`,
/// down and right `┌`, down and left `┐`, anything else `X`; and the path
/// walked backwards gets the same character.
pub proof fn lemma_turn_symbol_sides(prev: Point, curr: Point, next: Point)
    ensures
        ({
            let u = offset(curr, prev);
            let v = offset(curr, next);
            let s = turn_symbol(prev, curr, next);
            &&& joins(u, v, (0, -1), (0, 1)) ==> s == '│'
            &&& joins(u, v, (-1, 0), (1, 0)) ==> s == '─'
            &&& joins(u, v, (0, -1), (1, 0)) ==> s == '└'
            &&& joins(u, v, (0, -1), (-1, 0)) ==> s == '┘'
            &&& joins(u, v, (0, 1), (1, 0)) ==> s == '┌'
            &&& joins(u, v, (0, 1), (-1, 0)) ==> s == '┐'
            &&& !two_sides(u, v) ==> s == 'X'
            &&& s == turn_symbol(next, curr, prev)
        }),
{
}

/// The cell of an inner point after the turns up to `k` are drawn, when no
/// later point drawn so far falls on it.
proof fn lemma_draw_turns_cell(g: Seq<Seq<(char, ColorCode)>>, path: Seq<Point>, color: ColorCode, k: int, i: int)
    requires
        1 <= i <= k <= path.len() - 2,
        forall|j: int| 1 <= j < path.len() ==> in_grid(g, #[trigger] path[j]),
        forall|j: int| i < j <= k ==> #[trigger] path[j] != path[i],
    ensures
        draw_turns(g, path, color, k)[path[i].1 as int][path[i].0 as int] == (
            turn_symbol(path[i - 1], path[i], path[i + 1]),
            color,
        ),
    decreases k,
{
    lemma_draw_turns_shape(g, path, color, k - 1);
    let g1 = draw_turns(g, path, color, k - 1);
    assert(in_grid(g, path[k]));
    assert(in_grid(g, path[i]));
    assert(g1[path[k].1 as int].len() == g[path[k].1 as int].len());
    assert(g1[path[i].1 as int].len() == g[path[i].1 as int].len());
    if k > i {
        lemma_draw_turns_cell(g, path, color, k - 1, i);
        assert(path[k] != path[i]);
    }
}

/// The cell `draw_path` leaves at an inner point that the path does not come
/// back to.
proof fn lemma_drawn_cell(g: Seq<Seq<(char, ColorCode)>>, path: Seq<Point>, color: ColorCode, i: int)
    requires
        drawable(g, path),
        1 <= i <= path.len() - 2,
        forall|j: int| i < j < path.len() ==> #[trigger] path[j] != path[i],
    ensures
        drawn(g, path, color)[path[i].1 as int][path[i].0 as int] == (
            turn_symbol(path[i - 1], path[i], path[i + 1]),
            color,
        ),
{
    let n = path.len() as int;
    lemma_draw_turns_cell(g, path, color, n - 2, i);
    lemma_draw_turns_shape(g, path, color, n - 2);
    let g1 = draw_turns(g, path, color, n - 2);
    let last = path[n - 1];
    assert(in_grid(g, last));
    assert(in_grid(g, path[i]));
    assert(g1[last.1 as int].len() == g[last.1 as int].len());
    assert(g1[path[i].1 as int].len() == g[path[i].1 as int].len());
    assert(last != path[i]);
}

/// What `draw_path` draws at an inner point of the path that the path does
/// not come back to: in the path's colour, the line joining the two sides of
/// the cell that the path takes there — `│` for up and down (a straight run
/// down or up), `─` for left and right, `└` for up and right, `┘` for up and
/// left, `┌` for down and right, `┐` for down and left — and `X` when the
/// neighbouring points are not two sides of the cell.
pub proof fn lemma_drawn_inner_point(g: Seq<Seq<(char, ColorCode)>>, path: Seq<Point>, color: ColorCode, i: int)
    requires
        drawable(g, path),
        1 <= i <= path.len() - 2,
        forall|j: int| i < j < path.len() ==> #[trigger] path[j] != path[i],
    ensures
        ({
            let c = path[i];
            let u = offset(c, path[i - 1]);
            let v = offset(c, path[i + 1]);
            let cell = drawn(g, path, color)[c.1 as int][c.0 as int];
            &&& cell.1 == color
            &&& joins(u, v, (0, -1), (0, 1)) ==> cell.0 == '│'
            &&& joins(u, v, (-1, 0), (1, 0)) ==> cell.0 == '─'
            &&& joins(u, v, (0, -1), (1, 0)) ==> cell.0 == '└'
            &&& joins(u, v, (0, -1), (-1, 0)) ==> cell.0 == '┘'
            &&& joins(u, v, (0, 1), (1, 0)) ==> cell.0 == '┌'
            &&& joins(u, v, (0, 1), (-1, 0)) ==> cell.0 == '┐'
            &&& !two_sides(u, v) ==> cell.0 == 'X'
        }),
{
    lemma_drawn_cell(g, path, color, i);
    lemma_turn_symbol_sides(path[i - 1], path[i], path[i + 1]);
}

/// Drawing a path walked backwards puts the same character at each inner
/// point that the path passes only once.
pub proof fn lemma_drawn_reversed_inner_point(g: Seq<Seq<(char, ColorCode)>>, path: Seq<Point>, color: ColorCode, i: int)
    requires
        drawable(g, path),
        drawable(g, path.reverse()),
        1 <= i <= path.len() - 2,
        forall|j: int| 0 <= j < path.len() && j != i ==> #[trigger] path[j] != path[i],
    ensures
        drawn(g, path.reverse(), color)[path[i].1 as int][path[i].0 as int]
            == drawn(g, path, color)[path[i].1 as int][path[i].0 as int],
{
    let n = path.len() as int;
    let r = path.reverse();
    let ri = n - 1 - i;
    assert(r[ri] == path[i]);
    assert(r[ri - 1] == path[i + 1]);
    assert(r[ri + 1] == path[i - 1]);
    assert forall|j: int| ri < j < n implies #[trigger] r[j] != r[ri] by {
        assert(r[j] == path[n - 1 - j]);
    }
    lemma_drawn_cell(g, path, color, i);
    lemma_drawn_cell(g, r, color, ri);
    lemma_turn_symbol_sides(path[i - 1], path[i], path[i + 1]);
}

/// Drawing the turns up to `k` leaves a cell of the grid that none of those
/// inner points falls on as it was.
proof fn lemma_draw_turns_untouched(g: Seq<Seq<(char, ColorCode)>>, path: Seq<Point>, color: ColorCode, k: int, q: Point)
    requires
        k <= path.len() - 2,
        forall|j: int| 1 <= j < path.len() ==> in_grid(g, #[trigger] path[j]),
        in_grid(g, q),
        forall|j: int| 1 <= j <= k ==> #[trigger] path[j] != q,
    ensures
        draw_turns(g, path, color, k)[q.1 as int][q.0 as int] == g[q.1 as int][q.0 as int],
    decreases k,
{
    if k > 0 {
        lemma_draw_turns_untouched(g, path, color, k - 1, q);
        lemma_draw_turns_shape(g, path, color, k - 1);
        let g1 = draw_turns(g, path, color, k - 1);
        assert(in_grid(g, path[k]));
        assert(g1[path[k].1 as int].len() == g[path[k].1 as int].len());
        assert(g1[q.1 as int].len() == g[q.1 as int].len());
        assert(path[k] != q);
    }
}

/// What `draw_path` draws at the end of the path, in the path's colour, from
/// the character it drew at the point before the end (`p`, the start's own
/// character when the path has two points), the character the canvas had at
/// the end (`l`) and the last step.  The path joins an edge `─` coming
/// straight down as `┴` and coming straight up as `┬`; it joins an edge `│`
/// coming sideways from a `─` as `┤`; a junction `┤`, `├`, `┬` or `┴` already
/// there stays; a `│` is joined as `├` after the corners `┐` and `└`, and
/// after `┘` when the last step goes left; as `│` after `│`, and after `┘`
/// with any other step; a `─` stays `─` unless the path comes straight up or
/// down onto it, or up from `┘`, which gives `┬`; and anything else gives
/// `X`.
pub proof fn lemma_drawn_end_point(g: Seq<Seq<(char, ColorCode)>>, path: Seq<Point>, color: ColorCode)
    requires
        drawable(g, path),
        path[path.len() - 2] != path[path.len() - 1],
        forall|j: int| 0 < j < path.len() - 1 ==> #[trigger] path[j] != path[path.len() - 1],
    ensures
        ({
            let n = path.len() as int;
            let prev = path[n - 2];
            let end = path[n - 1];
            let d = drawn(g, path, color);
            let e = d[end.1 as int][end.0 as int];
            let p = d[prev.1 as int][prev.0 as int].0;
            let l = g[end.1 as int][end.0 as int].0;
            let step = offset(prev, end);
            &&& e.1 == color
            &&& l == '─' && p == '│' && step == (0int, 1int) ==> e.0 == '┴'
            &&& l == '─' && (p == '│' || p == '┘') && step == (0int, -1int) ==> e.0 == '┬'
            &&& l == '─' && p != '│' && !(p == '┘' && step == (0int, -1int)) ==> e.0 == '─'
            &&& l == '─' && p == '│' && step != (0int, 1int) && step != (0int, -1int) ==> e.0
                == '─'
            &&& l == '│' && p == '─' ==> e.0 == '┤'
            &&& l == '│' && (p == '┐' || p == '└' || (p == '┘' && step == (-1int, 0int)))
                ==> e.0 == '├'
            &&& l == '│' && (p == '│' || (p == '┘' && step != (-1int, 0int))) ==> e.0 == '│'
            &&& l == '│' && p != '─' && p != '┐' && p != '└' && p != '┘' && p != '│' ==> e.0
                == 'X'
            &&& (l == '┤' || l == '├' || l == '┬' || l == '┴') ==> e.0 == l
            &&& l != '─' && l != '│' && l != '┤' && l != '├' && l != '┬' && l != '┴' ==> e.0
                == 'X'
        }),
{
    let n = path.len() as int;
    let prev = path[n - 2];
    let end = path[n - 1];
    lemma_draw_turns_shape(g, path, color, n - 2);
    let g1 = draw_turns(g, path, color, n - 2);
    assert(in_grid(g, end));
    assert(in_grid(g, prev));
    lemma_draw_turns_untouched(g, path, color, n - 2, end);
    assert(g1[end.1 as int].len() == g[end.1 as int].len());
    assert(g1[prev.1 as int].len() == g[prev.1 as int].len());
}

impl Canvas {
    /// Draws a path of at least two points: each inner point gets the line
    /// character for the turn it makes, and the end point a connector to
    /// what it runs into.
    pub fn draw_path(&mut self, path: &Vec<Point>, color: char)
        requires
            drawable(cells(old(self).grid), path@),
        ensures
            cells(final(self).grid) == drawn(cells(old(self).grid), path@, color),
    {
        let ghost g0 = cells(self.grid);
        let ghost p = path@;
        let n = path.len();
        let mut k: usize = 0;
        while k + 2 < n
            invariant
                p == path@,
                n == p.len(),
                n >= 2,
                k + 2 <= n,
                g0 == cells(old(self).grid),
                drawable(g0, p),
                self.grid@.len() == g0.len(),
                cells(self.grid) == draw_turns(g0, p, color, k as int),
            decreases n - k,
        {
            let prev = path[k];
            let curr = path[k + 1];
            let next = path[k + 2];
            let ax: i32 = (curr.0 as i32) - (prev.0 as i32);
            let ay: i32 = (curr.1 as i32) - (prev.1 as i32);
            let bx: i32 = (next.0 as i32) - (curr.0 as i32);
            let by: i32 = (next.1 as i32) - (curr.1 as i32);
            let symbol = match ((ax, ay), (bx, by)) {
                ((0, 1), (0, 1)) | ((0, -1), (0, -1)) => '│',
                ((1, 0), (1, 0)) | ((-1, 0), (-1, 0)) => '─',
                ((0, 1), (1, 0)) | ((-1, 0), (0, -1)) => '└',
                ((1, 0), (0, -1)) | ((0, 1), (-1, 0)) => '┘',
                ((0, -1), (1, 0)) | ((-1, 0), (0, 1)) => '┌',
                ((0, -1), (-1, 0)) | ((1, 0), (0, 1)) => '┐',
                _ => 'X',
            };
            assert(symbol == turn_symbol(p[k as int], p[k + 1], p[k + 2]));
            proof {
                lemma_draw_turns_shape(g0, p, color, k as int);
                assert(in_grid(g0, p[k + 1]));
                assert(cells(self.grid)[curr.1 as int] == self.grid@[curr.1 as int]@);
            }
            set_cell(&mut self.grid, curr.1, curr.0, (symbol, color));
            k += 1;
        }
        let ghost g1 = cells(self.grid);
        proof {
            lemma_draw_turns_shape(g0, p, color, (n - 2) as int);
            assert(in_grid(g0, p[n - 2]));
            assert(in_grid(g0, p[n - 1]));
        }
        let (prev_sym_x, prev_sym_y) = path[n - 2];
        assert(g1[prev_sym_y as int] == self.grid@[prev_sym_y as int]@);
        let prev_sym = self.grid[prev_sym_y][prev_sym_x].0;
        let (last_sym_x, last_sym_y) = path[n - 1];
        assert(g1[last_sym_y as int] == self.grid@[last_sym_y as int]@);
        let last_sym = self.grid[last_sym_y][last_sym_x].0;
        let direction = (
            last_sym_x as isize - prev_sym_x as isize,
            last_sym_y as isize - prev_sym_y as isize,
        );
        let joint = match (prev_sym, last_sym, direction) {
            ('└', '─', _) => '─',
            ('─', '│', _) | (_, '┤', _) => '┤',
            ('┐', '│', _) | ('└', '│', _) | ('└', '├', _) | (_, '├', _) | ('┘', '│', (-1, 0)) => {
                '├'
            },
            ('│', '─', (0, -1)) | (_, '┬', (_, _)) | ('┘', '─', (0, -1)) => '┬',
            ('│', '─', (0, 1)) | (_, '┴', _) => '┴',
            ('┘', '│', _) | ('│', '│', _) => '│',
            (_, '─', _) => '─',
            _ => 'X',
        };
        assert(joint == connector(
            prev_sym,
            last_sym,
            delta(prev_sym_x, last_sym_x),
            delta(prev_sym_y, last_sym_y),
        ));
        set_cell(&mut self.grid, last_sym_y, last_sym_x, (joint, color));
    }
}


/// The grid after the first `k` points of the path, other than `start` and
/// `goal`, were marked with a white `*`.
pub open spec fn mark_path(g: Seq<Seq<(char, ColorCode)>>, path: Seq<Point>, start: Point, goal: Point, k: int) -> Seq<Seq<(char, ColorCode)>>
    decreases k,
{
    if k <= 0 {
        g
    } else {
        let g1 = mark_path(g, path, start, goal, k - 1);
        let p = path[k - 1];
        if p != start && p != goal {
            set_at(g1, p, ('*', 'w'))
        } else {
            g1
        }
    }
}

/// The grid after a path from `start` to `goal` is laid: its points other
/// than the ends are marked, then the path is drawn.
pub open spec fn routed(g: Seq<Seq<(char, ColorCode)>>, path: Seq<Point>, start: Point, goal: Point, color: ColorCode) -> Seq<Seq<(char, ColorCode)>> {
    drawn(mark_path(g, path, start, goal, path.len() as int), path, color)
}

/// Whether `place_route` can lay the path: it runs from `start` to `goal`
/// in two points or more, and `draw_path` can draw it.
pub open spec fn layable(g: Seq<Seq<(char, ColorCode)>>, path: Seq<Point>, start: Point, goal: Point) -> bool {
    &&& path.len() >= 2
    &&& path[0] == start
    &&& path.last() == goal
    &&& drawable(g, path)
}

pub proof fn lemma_mark_path_shape(g: Seq<Seq<(char, ColorCode)>>, path: Seq<Point>, start: Point, goal: Point, k: int)
    requires
        k <= path.len(),
        path.len() >= 1,
        path[0] == start,
        forall|i: int| 1 <= i < path.len() ==> in_grid(g, #[trigger] path[i]),
    ensures
        same_shape(mark_path(g, path, start, goal, k), g),
    decreases k,
{
    if k > 0 {
        lemma_mark_path_shape(g, path, start, goal, k - 1);
        if k - 1 >= 1 {
            assert(in_grid(g, path[k - 1]));
        }
    }
}

impl Canvas {
    /// Lays a path found from `start` to `goal`: its points other than the
    /// ends become white `*`, then the path is drawn in `color`.
    pub fn place_route(&mut self, path: &Vec<Point>, start: Point, goal: Point, color: char)
        requires
            layable(cells(old(self).grid), path@, start, goal),
        ensures
            cells(final(self).grid) == routed(cells(old(self).grid), path@, start, goal, color),
    {
        let ghost g0 = cells(self.grid);
        let ghost p = path@;
        let mut k: usize = 0;
        while k < path.len()
            invariant
                p == path@,
                k <= p.len(),
                g0 == cells(old(self).grid),
                layable(g0, p, start, goal),
                self.grid@.len() == g0.len(),
                cells(self.grid) == mark_path(g0, p, start, goal, k as int),
            decreases p.len() - k,
        {
            let (x, y) = path[k];
            if !is_goal((x, y), start) && !is_goal((x, y), goal) {
                proof {
                    lemma_mark_path_shape(g0, p, start, goal, k as int);
                    assert(k >= 1);
                    assert(in_grid(g0, p[k as int]));
                    assert(cells(self.grid)[y as int] == self.grid@[y as int]@);
                }
                set_cell(&mut self.grid, y, x, ('*', 'w'));
            }
            k += 1;
        }
        proof {
            let g1 = mark_path(g0, p, start, goal, p.len() as int);
            lemma_mark_path_shape(g0, p, start, goal, p.len() as int);
            assert forall|i: int| 1 <= i < p.len() implies in_grid(g1, #[trigger] p[i]) by {
                assert(in_grid(g0, p[i]));
            }
            assert(in_grid(g1, p[p.len() - 2]));
        }
        self.draw_path(path, color);
    }
}

/// Drawing never changes the shape of the canvas: a block, the rulers and a
/// laid path leave every row of the grid as long as it was.
pub proof fn lemma_drawing_keeps_shape(
    g: Seq<Seq<(char, ColorCode)>>,
    block: Seq<char>,
    sx: int,
    sy: int,
    path: Seq<Point>,
    start: Point,
    goal: Point,
    color: ColorCode,
)
    ensures
        same_shape(block_placed(g, block, sx, sy, color), g),
        same_shape(bordered(g), g),
        layable(g, path, start, goal) ==> same_shape(routed(g, path, start, goal, color), g),
{
    if layable(g, path, start, goal) {
        let n = path.len() as int;
        lemma_mark_path_shape(g, path, start, goal, n);
        let m = mark_path(g, path, start, goal, n);
        assert forall|i: int| 1 <= i < n implies in_grid(m, #[trigger] path[i]) by {
            assert(in_grid(g, path[i]));
        }
        lemma_draw_turns_shape(m, path, color, n - 2);
        assert(in_grid(g, path[n - 1]));
    }
}

/// A step is among the open steps exactly when its target is a candidate
/// that a path may step on.
pub proof fn lemma_open_steps_contains(g: Seq<Seq<(char, ColorCode)>>, cs: Seq<Point>, q: Point)
    ensures
        open_steps(g, cs).contains((q, 1usize)) <==> cs.contains(q) && open_at(g, q),
    decreases cs.len(),
{
    if cs.len() > 0 {
        let prev = cs.drop_last();
        lemma_open_steps_contains(g, prev, q);
        let rest = open_steps(g, prev);
        if open_steps(g, cs).contains((q, 1usize)) {
            let i = choose|i: int| 0 <= i < open_steps(g, cs).len() && open_steps(g, cs)[i] == (q, 1usize);
            if i < rest.len() {
                assert(rest[i] == (q, 1usize));
                let j = choose|j: int| 0 <= j < prev.len() && prev[j] == q;
                assert(cs[j] == q);
            } else {
                assert(cs[cs.len() - 1] == q);
            }
        }
        if cs.contains(q) && open_at(g, q) {
            let j = choose|j: int| 0 <= j < cs.len() && cs[j] == q;
            if j < cs.len() - 1 {
                assert(prev[j] == q);
                let i = choose|i: int| 0 <= i < rest.len() && rest[i] == (q, 1usize);
                if open_at(g, cs.last()) {
                    assert(rest.push((cs.last(), 1usize))[i] == (q, 1usize));
                }
            } else {
                assert(open_steps(g, cs)[rest.len() as int] == (q, 1usize));
            }
        }
    }
}

/// Cells a block leaves decide where paths go: a space inside a block is
/// marked so that no path steps on it, and any other character of the block
/// (drawn in a colour other than `A`) can be stepped on exactly when it is a
/// line-drawing character.  So `neighbors` offers a cell next to `pos` that
/// the block covers exactly when the block put a line-drawing character there.
pub proof fn lemma_block_cells_and_paths(
    g: Seq<Seq<(char, ColorCode)>>,
    block: Seq<char>,
    sx: int,
    sy: int,
    color: ColorCode,
    pos: Point,
    q: Point,
)
    requires
        color != 'A',
        next_to(pos).contains(q),
        within(block_placed(g, block, sx, sy, color), q),
        in_grid(g, q),
        sy <= q.1 < sy + split_on(block, '\n').len(),
        sx <= q.0 < sx + split_on(block, '\n')[q.1 - sy].len(),
    ensures
        ({
            let ch = split_on(block, '\n')[q.1 - sy][q.0 - sx];
            open_steps(block_placed(g, block, sx, sy, color), next_to(pos)).contains((q, 1usize))
                <==> (ch != ' ' && (ch == '│' || ch == '─' || ch == '+' || ch == '┴' || ch == '┬'
                || ch == '├' || ch == '┤'))
        }),
{
    let gb = block_placed(g, block, sx, sy, color);
    lemma_open_steps_contains(gb, next_to(pos), q);
}

/// Whether `place_path` can run: the search stays within the machine's
/// arithmetic, the ends differ, and when the goal is next to the start and
/// may be stepped on, the start is a cell of the grid (the drawing then reads
/// the start's cell, the one before the end).
pub open spec fn path_placeable(g: Seq<Seq<(char, ColorCode)>>, start: Point, goal: Point) -> bool {
    &&& search_ok(g, start, goal)
    &&& start != goal
    &&& next_to(start).contains(goal) && open_at(g, goal) ==> in_grid(g, start)
}

/// The grid after `place_path`: the path A* finds is laid, or nothing changes
/// when there is none.
pub open spec fn path_placed(g: Seq<Seq<(char, ColorCode)>>, start: Point, goal: Point, color: ColorCode) -> Seq<Seq<(char, ColorCode)>> {
    match astar_route(start, goal, g) {
        Some((path, _)) => routed(g, path, start, goal, color),
        None => g,
    }
}

/// A path that the search returns can be laid.
pub proof fn lemma_found_path_layable(g: Seq<Seq<(char, ColorCode)>>, p: Seq<Point>, start: Point, goal: Point)
    requires
        g.len() > 0,
        rows_reach_width(g),
        g.len() <= i32::MAX,
        g[0].len() <= i32::MAX,
        start.0 <= i32::MAX && start.1 <= i32::MAX,
        start != goal,
        next_to(start).contains(goal) && open_at(g, goal) ==> in_grid(g, start),
        leads(g, p, start, goal),
    ensures
        layable(g, p, start, goal),
{
    assert(p.len() >= 2) by {
        if p.len() == 1 {
            assert(p[0] == p.last());
        }
    }
    assert forall|i: int| 1 <= i < p.len() implies in_grid(g, #[trigger] p[i]) by {
        assert(steps_to(g, p[i - 1], p[(i - 1) + 1]));
        assert(g[p[i].1 as int].len() >= g[0].len());
    }
    if p.len() == 2 {
        assert(steps_to(g, p[0], p[0int + 1]));
    } else {
        assert(in_grid(g, p[p.len() - 2]));
    }
    assert forall|i: int| 0 <= i < p.len() implies (#[trigger] p[i]).0 <= i32::MAX && p[i].1
        <= i32::MAX by {
        if i >= 1 {
            assert(steps_to(g, p[i - 1], p[(i - 1) + 1]));
        }
    }
}

impl Canvas {
    /// Finds a path from `start` to `goal` over cells a path may step on, by
    /// A* search, and lays it in `color`.  A path is found exactly when one
    /// exists, and no path from `start` to `goal` is shorter; without a path
    /// nothing changes.
    pub fn place_path(&mut self, start: Point, goal: Point, color: char)
        requires
            path_placeable(cells(old(self).grid), start, goal),
        ensures
            cells(final(self).grid) == path_placed(cells(old(self).grid), start, goal, color),
            astar_route(start, goal, cells(old(self).grid)) matches Some((p, _)) ==> leads(
                cells(old(self).grid),
                p,
                start,
                goal,
            ),
            astar_route(start, goal, cells(old(self).grid)) matches Some((p, _)) ==> forall|
                q: Seq<Point>,
            | #[trigger] leads(cells(old(self).grid), q, start, goal) ==> p.len() <= q.len(),
            (exists|q: Seq<Point>| #[trigger] leads(cells(old(self).grid), q, start, goal))
                <==> astar_route(start, goal, cells(old(self).grid)) is Some,
            !(exists|q: Seq<Point>| #[trigger] leads(cells(old(self).grid), q, start, goal))
                ==> cells(final(self).grid) == cells(old(self).grid),
    {
        let ghost g0 = cells(self.grid);
        let result = astar_on_grid(start, goal, &self.grid);
        match result {
            Some((path, _cost)) => {
                proof {
                    lemma_found_path_layable(g0, path@, start, goal);
                    assert(leads(g0, path@, start, goal));
                }
                self.place_route(&path, start, goal, color);
            },
            None => {
                proof {
                    if exists|q: Seq<Point>| #[trigger] leads(g0, q, start, goal) {
                        assert(result is Some);
                    }
                }
            },
        }
    }
}

} // verus!
