//! Glass Seam Bridging: the integer core of the connectivity repair that finds
//! and carves tunnels between disconnected floor regions.

use vstd::prelude::*;
use crate::map::{TileMap, Tile, tile_walkable, is_floor_named, floor_tile, cell_index, lemma_cell_index_bounds, lemma_cell_index_injective};

verus! {

/// Absolute value on mathematical integers.
pub open spec fn abs_int(v: int) -> int {
    if v < 0 { -v } else { v }
}

/// Direction of travel along one axis (`1` towards larger values, else `-1`).
pub open spec fn step_sign(from: int, to: int) -> int {
    if from < to { 1 } else { -1 }
}

/// Error term of the line walk after `i` steps along x and `j` steps along y,
/// for a line spanning `dx` columns and `ddy` rows.
pub open spec fn line_err(dx: int, ddy: int, i: int, j: int) -> int {
    (j + 1) * dx - (i + 1) * ddy
}

/// The line walk moves along x after a point whose error term is `e`.
pub open spec fn moves_x(e: int, ddy: int) -> bool {
    2 * e >= -ddy
}

/// The line walk moves along y after a point whose error term is `e`.
pub open spec fn moves_y(e: int, dx: int) -> bool {
    2 * e <= dx
}

/// Both coordinate gaps of the line fit in an `i32`.
pub open spec fn line_fits(from: (i32, i32), to: (i32, i32)) -> bool {
    &&& abs_int(to.0 - from.0) <= i32::MAX
    &&& abs_int(to.1 - from.1) <= i32::MAX
}

/// Chessboard distance between two cells: the larger of the two coordinate gaps.
pub open spec fn chessboard(a: (i32, i32), b: (i32, i32)) -> int {
    let gx = abs_int(b.0 - a.0);
    let gy = abs_int(b.1 - a.1);
    if gx >= gy { gx } else { gy }
}

/// `pts` is the Bresenham line from `from` to `to`: it starts at `from`, ends
/// at `to`, and each next point follows from the previous one by the error rule.
pub open spec fn is_bresenham_line(pts: Seq<(i32, i32)>, from: (i32, i32), to: (i32, i32)) -> bool {
    let dx = abs_int(to.0 - from.0);
    let ddy = abs_int(to.1 - from.1);
    let sx = step_sign(from.0 as int, to.0 as int);
    let sy = step_sign(from.1 as int, to.1 as int);
    &&& pts.len() >= 1
    &&& pts[0] == from
    &&& pts[pts.len() - 1] == to
    &&& pts.len() <= dx + ddy + 1
    &&& forall|k: int| 0 <= k < pts.len() - 1 ==> pts[k] != to
    &&& forall|k: int|
        #![trigger pts[k + 1]]
        0 <= k < pts.len() - 1 ==> {
            let i = abs_int(pts[k].0 - from.0);
            let j = abs_int(pts[k].1 - from.1);
            let e = line_err(dx, ddy, i, j);
            &&& pts[k + 1].0 == pts[k].0 + (if moves_x(e, ddy) { sx } else { 0 })
            &&& pts[k + 1].1 == pts[k].1 + (if moves_y(e, dx) { sy } else { 0 })
        }
    &&& forall|k: int| 0 <= k < pts.len() ==> {
        &&& abs_int(pts[k].0 - from.0) <= dx
        &&& abs_int(pts[k].1 - from.1) <= ddy
        &&& (pts[k].0 - from.0) * sx >= 0
        &&& (pts[k].1 - from.1) * sy >= 0
    }
}

proof fn lemma_no_overshoot(dx: int, ddy: int, i: int, j: int)
    requires
        0 <= i <= dx,
        0 <= j <= ddy,
        !(i == dx && j == ddy),
    ensures
        i == dx ==> !moves_x(line_err(dx, ddy, i, j), ddy),
        j == ddy ==> !moves_y(line_err(dx, ddy, i, j), dx),
        moves_x(line_err(dx, ddy, i, j), ddy) || moves_y(line_err(dx, ddy, i, j), dx),
{
    if i == dx {
        assert(2 * ((j + 1) * dx - (i + 1) * ddy) < -ddy) by (nonlinear_arith)
            requires
                i == dx,
                0 <= j < ddy,
                0 <= dx,
        ;
    }
    if j == ddy {
        assert(2 * ((j + 1) * dx - (i + 1) * ddy) > dx) by (nonlinear_arith)
            requires
                j == ddy,
                0 <= i < dx,
                0 <= ddy,
        ;
    }
}

/// Where a point of the line stands relative to its start: `i` steps along x
/// and `j` along y, both counted away from `from`.
proof fn lemma_offsets(p: (i32, i32), from: (i32, i32), to: (i32, i32))
    requires
        (p.0 - from.0) * step_sign(from.0 as int, to.0 as int) >= 0,
        (p.1 - from.1) * step_sign(from.1 as int, to.1 as int) >= 0,
        abs_int(p.0 - from.0) <= abs_int(to.0 - from.0),
        abs_int(p.1 - from.1) <= abs_int(to.1 - from.1),
    ensures
        p.0 == from.0 + step_sign(from.0 as int, to.0 as int) * abs_int(p.0 - from.0),
        p.1 == from.1 + step_sign(from.1 as int, to.1 as int) * abs_int(p.1 - from.1),
        (p == to) <==> (abs_int(p.0 - from.0) == abs_int(to.0 - from.0) && abs_int(p.1 - from.1)
            == abs_int(to.1 - from.1)),
{
    let sx = step_sign(from.0 as int, to.0 as int);
    let sy = step_sign(from.1 as int, to.1 as int);
    if sx == 1 {
        assert(p.0 - from.0 >= 0) by (nonlinear_arith)
            requires (p.0 - from.0) * sx >= 0, sx == 1;
    } else {
        assert(p.0 - from.0 <= 0) by (nonlinear_arith)
            requires (p.0 - from.0) * sx >= 0, sx == -1;
    }
    if sy == 1 {
        assert(p.1 - from.1 >= 0) by (nonlinear_arith)
            requires (p.1 - from.1) * sy >= 0, sy == 1;
    } else {
        assert(p.1 - from.1 <= 0) by (nonlinear_arith)
            requires (p.1 - from.1) * sy >= 0, sy == -1;
    }
}

/// Along the longer axis the line advances one cell per point, and the error
/// term stays on the side that keeps it doing so.
proof fn lemma_major_axis(pts: Seq<(i32, i32)>, from: (i32, i32), to: (i32, i32), k: int)
    requires
        is_bresenham_line(pts, from, to),
        0 <= k < pts.len(),
    ensures
        ({
            let dx = abs_int(to.0 - from.0);
            let ddy = abs_int(to.1 - from.1);
            let i = abs_int(pts[k].0 - from.0);
            let j = abs_int(pts[k].1 - from.1);
            let e = line_err(dx, ddy, i, j);
            &&& dx >= ddy ==> i == k && 2 * e >= -ddy
            &&& dx < ddy ==> j == k && 2 * e <= dx
        }),
    decreases k,
{
    let dx = abs_int(to.0 - from.0);
    let ddy = abs_int(to.1 - from.1);
    let sx = step_sign(from.0 as int, to.0 as int);
    let sy = step_sign(from.1 as int, to.1 as int);
    if k == 0 {
        assert(line_err(dx, ddy, 0, 0) == dx - ddy) by (nonlinear_arith);
    } else {
        lemma_major_axis(pts, from, to, k - 1);
        let p = pts[k - 1];
        let q = pts[(k - 1) + 1];
        let i = abs_int(p.0 - from.0);
        let j = abs_int(p.1 - from.1);
        let e = line_err(dx, ddy, i, j);
        lemma_offsets(p, from, to);
        lemma_offsets(q, from, to);
        assert(p != to);
        lemma_no_overshoot(dx, ddy, i, j);
        let mx = moves_x(e, ddy);
        let my = moves_y(e, dx);
        let i2 = if mx { i + 1 } else { i };
        let j2 = if my { j + 1 } else { j };
        assert(abs_int(q.0 - from.0) == i2) by {
            if mx {
                assert(q.0 == from.0 + sx * (i + 1)) by (nonlinear_arith)
                    requires p.0 == from.0 + sx * i, q.0 == p.0 + sx;
                if sx == 1 {} else {}
            }
        }
        assert(abs_int(q.1 - from.1) == j2) by {
            if my {
                assert(q.1 == from.1 + sy * (j + 1)) by (nonlinear_arith)
                    requires p.1 == from.1 + sy * j, q.1 == p.1 + sy;
                if sy == 1 {} else {}
            }
        }
        assert(line_err(dx, ddy, i2, j2) == e - (if mx { ddy } else { 0 }) + (if my { dx } else { 0 }))
            by (nonlinear_arith)
            requires
                e == (j + 1) * dx - (i + 1) * ddy,
                i2 == (if mx { i + 1 } else { i }),
                j2 == (if my { j + 1 } else { j }),
        ;
    }
}

/// The line has one point per cell of its longer side, and each point is a
/// king's move from the one before it.
pub proof fn lemma_bresenham_shape(pts: Seq<(i32, i32)>, from: (i32, i32), to: (i32, i32))
    requires
        is_bresenham_line(pts, from, to),
    ensures
        pts.len() == chessboard(from, to) + 1,
        forall|k: int| 0 <= k < pts.len() - 1 ==> chessboard(#[trigger] pts[k], pts[k + 1]) == 1,
{
    let dx = abs_int(to.0 - from.0);
    let ddy = abs_int(to.1 - from.1);
    let last = pts.len() - 1;
    lemma_major_axis(pts, from, to, last);
    lemma_offsets(pts[last], from, to);
    assert forall|k: int| 0 <= k < pts.len() - 1 implies chessboard(#[trigger] pts[k], pts[k + 1]) == 1 by {
        let p = pts[k];
        let i = abs_int(p.0 - from.0);
        let j = abs_int(p.1 - from.1);
        lemma_offsets(p, from, to);
        assert(p != to);
        lemma_no_overshoot(dx, ddy, i, j);
        assert(pts[k + 1] == pts[k + 1]);
    }
}

/// The Bresenham line between two points, both ends included.
pub fn bresenham_line(from: (i32, i32), to: (i32, i32)) -> (points: Vec<(i32, i32)>)
    requires
        line_fits(from, to),
    ensures
        is_bresenham_line(points@, from, to),
        points@ == bresenham_points(from, to),
        points@.len() == chessboard(from, to) + 1,
        forall|k: int| 0 <= k < points@.len() - 1 ==> chessboard(#[trigger] points@[k], points@[k + 1]) == 1,
{
    let mut points: Vec<(i32, i32)> = Vec::new();
    let (mut x0, mut y0) = from;
    let (x1, y1) = to;
    let dx: i64 = if x1 >= x0 { x1 as i64 - x0 as i64 } else { x0 as i64 - x1 as i64 };
    let dy: i64 = if y1 >= y0 { -(y1 as i64 - y0 as i64) } else { -(y0 as i64 - y1 as i64) };
    let sx: i32 = if x0 < x1 { 1 } else { -1 };
    let sy: i32 = if y0 < y1 { 1 } else { -1 };
    let mut err: i64 = dx + dy;
    let ghost ddy: int = -dy;
    let ghost mut i: int = 0;
    let ghost mut j: int = 0;
    assert(err == line_err(dx as int, ddy, 0, 0)) by (nonlinear_arith)
        requires
            err == dx + dy,
            ddy == -dy,
    ;
    loop
        invariant_except_break
            0 <= dx <= i32::MAX,
            0 <= ddy <= i32::MAX,
            dx == abs_int(to.0 - from.0),
            ddy == abs_int(to.1 - from.1),
            dy == -ddy,
            sx == step_sign(from.0 as int, to.0 as int),
            sy == step_sign(from.1 as int, to.1 as int),
            x1 == to.0,
            y1 == to.1,
            0 <= i <= dx,
            0 <= j <= ddy,
            x0 == from.0 + sx * i,
            y0 == from.1 + sy * j,
            err == line_err(dx as int, ddy, i, j),
            -3 * ddy <= 2 * err <= 3 * dx,
            points@.len() >= 1 ==> points@[0] == from,
            points@.len() == 0 ==> i == 0 && j == 0,
            points@.len() <= i + j,
            points@.len() >= 1 ==> {
                let last = points@[points@.len() - 1];
                let li = abs_int(last.0 - from.0);
                let lj = abs_int(last.1 - from.1);
                let e = line_err(dx as int, ddy, li, lj);
                &&& x0 == last.0 + (if moves_x(e, ddy) { sx } else { 0 })
                &&& y0 == last.1 + (if moves_y(e, dx as int) { sy } else { 0 })
            },
            forall|k: int| 0 <= k < points@.len() ==> points@[k] != to,
            forall|k: int|
                #![trigger points@[k + 1]]
                0 <= k < points@.len() - 1 ==> {
                    let pi = abs_int(points@[k].0 - from.0);
                    let pj = abs_int(points@[k].1 - from.1);
                    let e = line_err(dx as int, ddy, pi, pj);
                    &&& points@[k + 1].0 == points@[k].0 + (if moves_x(e, ddy) { sx } else { 0 })
                    &&& points@[k + 1].1 == points@[k].1 + (if moves_y(e, dx as int) { sy } else { 0 })
                },
            forall|k: int| 0 <= k < points@.len() ==> {
                &&& abs_int(points@[k].0 - from.0) <= dx
                &&& abs_int(points@[k].1 - from.1) <= ddy
                &&& (points@[k].0 - from.0) * sx >= 0
                &&& (points@[k].1 - from.1) * sy >= 0
            },
        ensures
            is_bresenham_line(points@, from, to),
        decreases (dx - i) + (ddy - j),
    {
        proof {
            assert(abs_int(x0 - from.0) == i) by (nonlinear_arith)
                requires
                    x0 == from.0 + sx * i,
                    sx == 1 || sx == -1,
                    0 <= i,
            ;
            assert(abs_int(y0 - from.1) == j) by (nonlinear_arith)
                requires
                    y0 == from.1 + sy * j,
                    sy == 1 || sy == -1,
                    0 <= j,
            ;
            assert((x0 - from.0) * sx >= 0) by (nonlinear_arith)
                requires
                    x0 == from.0 + sx * i,
                    sx == 1 || sx == -1,
                    0 <= i,
            ;
            assert((y0 - from.1) * sy >= 0) by (nonlinear_arith)
                requires
                    y0 == from.1 + sy * j,
                    sy == 1 || sy == -1,
                    0 <= j,
            ;
        }
        let ghost old_points = points@;
        points.push((x0, y0));
        if x0 == x1 && y0 == y1 {
            break;
        }
        proof {
            assert(i != dx || j != ddy) by {
                if i == dx && j == ddy {
                    assert(x0 == x1) by (nonlinear_arith)
                        requires
                            x0 == from.0 + sx * i,
                            i == abs_int(to.0 - from.0),
                            sx == step_sign(from.0 as int, to.0 as int),
                            x1 == to.0,
                    ;
                    assert(y0 == y1) by (nonlinear_arith)
                        requires
                            y0 == from.1 + sy * j,
                            j == abs_int(to.1 - from.1),
                            sy == step_sign(from.1 as int, to.1 as int),
                            y1 == to.1,
                    ;
                }
            }
            lemma_no_overshoot(dx as int, ddy, i, j);
        }
        let e2 = 2 * err;
        let ghost e_old = err as int;
        if e2 >= dy {
            let ghost pre = err as int;
            err = err + dy;
            x0 = x0 + sx;
            proof {
                assert(err == line_err(dx as int, ddy, i + 1, j)) by (nonlinear_arith)
                    requires
                        pre == (j + 1) * dx - (i + 1) * ddy,
                        err == pre - ddy,
                ;
                i = i + 1;
            }
        }
        if e2 <= dx {
            let ghost pre = err as int;
            err = err + dx;
            y0 = y0 + sy;
            proof {
                assert(err == line_err(dx as int, ddy, i, j + 1)) by (nonlinear_arith)
                    requires
                        pre == (j + 1) * dx - (i + 1) * ddy,
                        err == pre + dx,
                ;
                j = j + 1;
            }
        }
    }
    proof {
        lemma_bresenham_unique(points@, bresenham_points(from, to), from, to);
        lemma_bresenham_shape(points@, from, to);
    }
    points
}


/// Number of `false` entries of a column.
pub open spec fn count_false(c: Seq<bool>) -> nat
    decreases c.len(),
{
    if c.len() == 0 {
        0
    } else {
        count_false(c.drop_last()) + if c.last() { 0nat } else { 1nat }
    }
}

/// Number of unvisited cells of a visited grid (indexed `[x][y]`).
pub open spec fn count_unvisited(v: Seq<Vec<bool>>) -> nat
    decreases v.len(),
{
    if v.len() == 0 {
        0
    } else {
        count_unvisited(v.drop_last()) + count_false(v.last()@)
    }
}

pub proof fn lemma_count_false_update(c: Seq<bool>, k: int)
    requires
        0 <= k < c.len(),
        !c[k],
    ensures
        count_false(c.update(k, true)) + 1 == count_false(c),
    decreases c.len(),
{
    let u = c.update(k, true);
    if k == c.len() - 1 {
        assert(u.drop_last() =~= c.drop_last());
    } else {
        lemma_count_false_update(c.drop_last(), k);
        assert(u.drop_last() =~= c.drop_last().update(k, true));
    }
}

pub(crate) proof fn lemma_count_unvisited_update(v: Seq<Vec<bool>>, x: int, col: Vec<bool>, y: int)
    requires
        0 <= x < v.len(),
        0 <= y < v[x]@.len(),
        !v[x]@[y],
        col@ == v[x]@.update(y, true),
    ensures
        count_unvisited(v.update(x, col)) + 1 == count_unvisited(v),
    decreases v.len(),
{
    let u = v.update(x, col);
    lemma_count_false_update(v[x]@, y);
    if x == v.len() - 1 {
        assert(u.drop_last() =~= v.drop_last());
    } else {
        lemma_count_unvisited_update(v.drop_last(), x, col, y);
        assert(u.drop_last() =~= v.drop_last().update(x, col));
    }
}

/// The visited grid has one column per map column and one entry per row.
pub open spec fn visited_shape(m: &TileMap, v: Seq<Vec<bool>>) -> bool {
    &&& v.len() == m.width
    &&& forall|x: int| 0 <= x < v.len() ==> (#[trigger] v[x])@.len() == m.height
}

/// The cell is marked in the visited grid (cells outside the grid are not).
pub open spec fn marked(v: Seq<Vec<bool>>, x: int, y: int) -> bool {
    0 <= x < v.len() && 0 <= y < v[x]@.len() && v[x]@[y]
}

/// Two cells share an edge.
pub open spec fn adjacent4(a: (i32, i32), b: (i32, i32)) -> bool {
    abs_int(a.0 - b.0) + abs_int(a.1 - b.1) == 1
}

/// `p` shares an edge with one of the first `n` points of `pts`.
pub open spec fn touches_prefix(p: (i32, i32), pts: Seq<(i32, i32)>, n: int) -> bool {
    exists|j: int| 0 <= j < n && j < pts.len() && adjacent4(p, #[trigger] pts[j])
}

/// The sequence holds a point with the given coordinates.
pub open spec fn holds_point(s: Seq<(i32, i32)>, x: int, y: int) -> bool {
    exists|k: int| 0 <= k < s.len() && s[k].0 == x && s[k].1 == y
}

/// A neighbour of a filled cell has been dealt with: it is marked, cannot be
/// walked on, or still waits in `pending`.
pub open spec fn neighbour_settled(
    m: &TileMap,
    v: Seq<Vec<bool>>,
    pending: Seq<(i32, i32)>,
    x: int,
    y: int,
) -> bool {
    marked(v, x, y) || !m.walkable_at(x, y) || holds_point(pending, x, y)
}

/// All four neighbours of `p` are settled.
pub open spec fn neighbours_settled(
    m: &TileMap,
    v: Seq<Vec<bool>>,
    pending: Seq<(i32, i32)>,
    p: (i32, i32),
) -> bool {
    &&& neighbour_settled(m, v, pending, p.0 + 1, p.1 as int)
    &&& neighbour_settled(m, v, pending, p.0 - 1, p.1 as int)
    &&& neighbour_settled(m, v, pending, p.0 as int, p.1 + 1)
    &&& neighbour_settled(m, v, pending, p.0 as int, p.1 - 1)
}

/// Facts that a flood fill from `start` establishes about the `tiles` it
/// returns, given the visited grid before (`v0`) and after (`v1`).
pub open spec fn flood_fill_post(
    m: &TileMap,
    start: (i32, i32),
    v0: Seq<Vec<bool>>,
    v1: Seq<Vec<bool>>,
    tiles: Seq<(i32, i32)>,
) -> bool {
    &&& visited_shape(m, v1)
    &&& tiles.no_duplicates()
    &&& forall|k: int|
        0 <= k < tiles.len() ==> {
            &&& m.walkable_at(tiles[k].0 as int, tiles[k].1 as int)
            &&& !marked(v0, tiles[k].0 as int, tiles[k].1 as int)
            &&& marked(v1, tiles[k].0 as int, tiles[k].1 as int)
        }
    &&& forall|x: int, y: int|
        #![trigger marked(v1, x, y)]
        marked(v1, x, y) <==> (marked(v0, x, y) || holds_point(tiles, x, y))
    &&& (tiles.len() == 0 <==> !(m.walkable_at(start.0 as int, start.1 as int) && !marked(
        v0,
        start.0 as int,
        start.1 as int,
    )))
    &&& tiles.len() > 0 ==> tiles[0] == start
    &&& forall|k: int| 0 < k < tiles.len() ==> touches_prefix(#[trigger] tiles[k], tiles, k)
    &&& forall|k: int| 0 <= k < tiles.len() ==> neighbours_settled(m, v1, Seq::empty(), #[trigger] tiles[k])
}

/// Breadth-first flood fill over walkable cells from `(start_x, start_y)`,
/// marking every cell it collects in `visited` (indexed `[x][y]`).
pub fn flood_fill(m: &TileMap, start_x: i32, start_y: i32, visited: &mut Vec<Vec<bool>>) -> (tiles: Vec<(i32, i32)>)
    requires
        m.wf(),
        visited_shape(m, old(visited)@),
    ensures
        flood_fill_post(m, (start_x, start_y), old(visited)@, final(visited)@, tiles@),
{
    let ghost v0 = visited@;
    let ghost start = (start_x, start_y);
    let mut tiles: Vec<(i32, i32)> = Vec::new();
    let mut queue: std::collections::VecDeque<(i32, i32)> = std::collections::VecDeque::new();
    queue.push_back((start_x, start_y));
    proof {
        assert(queue@[0] == start);
    }
    while queue.len() > 0
        invariant
            m.wf(),
            visited_shape(m, visited@),
            visited_shape(m, v0),
            tiles@.no_duplicates(),
            forall|k: int|
                0 <= k < tiles@.len() ==> {
                    &&& m.walkable_at(tiles@[k].0 as int, tiles@[k].1 as int)
                    &&& !marked(v0, tiles@[k].0 as int, tiles@[k].1 as int)
                    &&& marked(visited@, tiles@[k].0 as int, tiles@[k].1 as int)
                },
            forall|x: int, y: int|
                #![trigger marked(visited@, x, y)]
                marked(visited@, x, y) <==> (marked(v0, x, y) || holds_point(tiles@, x, y)),
            tiles@.len() > 0 ==> tiles@[0] == start,
            tiles@.len() == 0 ==> (queue@ =~= seq![start] || (queue@.len() == 0 && !(m.walkable_at(
                start.0 as int,
                start.1 as int,
            ) && !marked(v0, start.0 as int, start.1 as int)))),
            tiles@.len() > 0 ==> forall|q: int|
                0 <= q < queue@.len() ==> touches_prefix(#[trigger] queue@[q], tiles@, tiles@.len() as int),
            forall|k: int| 0 < k < tiles@.len() ==> touches_prefix(#[trigger] tiles@[k], tiles@, k),
            forall|k: int|
                0 <= k < tiles@.len() ==> neighbours_settled(m, visited@, queue@, #[trigger] tiles@[k]),
            tiles@.len() > 0 ==> m.walkable_at(start.0 as int, start.1 as int) && !marked(
                v0,
                start.0 as int,
                start.1 as int,
            ),
        decreases count_unvisited(visited@), queue@.len(),
    {
        let ghost q_before = queue@;
        let ghost vis_before = visited@;
        let (x, y) = match queue.pop_front() {
            Some(p) => p,
            None => (0, 0),
        };
        let ghost q_rest = queue@;
        proof {
            assert(q_rest =~= q_before.subrange(1, q_before.len() as int));
            assert(q_before[0] == (x, y));
        }
        if x < 0 || y < 0 || x as usize >= m.width || y as usize >= m.height {
            proof {
                lemma_pop_keeps_settled(m, visited@, q_before, tiles@, (x, y));
                if tiles@.len() > 0 {
                    lemma_queue_tail_adjacent(q_before, q_rest, tiles@);
                }
                if tiles@.len() == 0 {
                    assert(q_rest.len() == 0);
                }
            }
            continue;
        }
        let ux = x as usize;
        let uy = y as usize;
        let seen = visited[ux][uy];
        let open = m.get_tile(x, y).walkable();
        if seen || !open {
            proof {
                if tiles@.len() == 0 {
                    assert(q_before =~= seq![start]);
                    assert(marked(visited@, x as int, y as int) ==> marked(v0, x as int, y as int));
                }
                lemma_pop_keeps_settled(m, visited@, q_before, tiles@, (x, y));
                if tiles@.len() > 0 {
                    lemma_queue_tail_adjacent(q_before, q_rest, tiles@);
                }
                if tiles@.len() == 0 {
                    assert(q_rest.len() == 0);
                }
            }
            continue;
        }
        let ghost old_tiles = tiles@;
        proof {
            assert(vis_before[ux as int]@.len() == m.height);
        }
        let mut col = visited[ux].clone();
        proof {
            assert(col@ =~= visited@[ux as int]@);
        }
        col.set(uy, true);
        proof {
            lemma_count_unvisited_update(visited@, ux as int, col, uy as int);
        }
        visited.set(ux, col);
        tiles.push((x, y));
        queue.push_back((x + 1, y));
        queue.push_back((x - 1, y));
        queue.push_back((x, y + 1));
        queue.push_back((x, y - 1));
        proof {
            let p = (x, y);
            lemma_marked_step(vis_before, visited@, p);
            lemma_holds_push(old_tiles, p);
            assert forall|k: int| 0 <= k < old_tiles.len() implies old_tiles[k] != p by {
                assert(marked(vis_before, old_tiles[k].0 as int, old_tiles[k].1 as int));
            }
            lemma_push_no_dup(old_tiles, p);
            if old_tiles.len() == 0 {
                assert(q_before =~= seq![start]);
            }
            lemma_queue_adjacent_step(q_before, queue@, old_tiles, tiles@, p);
            lemma_settled_step(m, vis_before, visited@, q_before, queue@, old_tiles, tiles@, p);
            assert(!marked(vis_before, x as int, y as int));
            assert(!marked(v0, x as int, y as int));
        }
    }
    proof {
        assert(queue@ =~= Seq::<(i32, i32)>::empty());
    }
    tiles
}

proof fn lemma_settled_after_pop(
    m: &TileMap,
    v: Seq<Vec<bool>>,
    q: Seq<(i32, i32)>,
    t: (i32, i32),
    p: (i32, i32),
)
    requires
        q.len() > 0,
        q[0] == p,
        neighbours_settled(m, v, q, t),
    ensures
        neighbours_settled(m, v, q.subrange(1, q.len() as int), t) || adjacent4(t, p),
{
    let r = q.subrange(1, q.len() as int);
    if !adjacent4(t, p) {
        lemma_holds_point_tail(q, t.0 + 1, t.1 as int, p);
        lemma_holds_point_tail(q, t.0 - 1, t.1 as int, p);
        lemma_holds_point_tail(q, t.0 as int, t.1 + 1, p);
        lemma_holds_point_tail(q, t.0 as int, t.1 - 1, p);
    }
}

proof fn lemma_holds_point_tail(q: Seq<(i32, i32)>, x: int, y: int, p: (i32, i32))
    requires
        q.len() > 0,
        q[0] == p,
        !(p.0 == x && p.1 == y),
    ensures
        holds_point(q, x, y) ==> holds_point(q.subrange(1, q.len() as int), x, y),
{
    if holds_point(q, x, y) {
        let k = choose|k: int| 0 <= k < q.len() && q[k].0 == x && q[k].1 == y;
        assert(k >= 1);
        let r = q.subrange(1, q.len() as int);
        assert(r[k - 1] == q[k]);
    }
}

proof fn lemma_pop_keeps_settled(
    m: &TileMap,
    v: Seq<Vec<bool>>,
    q: Seq<(i32, i32)>,
    tiles: Seq<(i32, i32)>,
    p: (i32, i32),
)
    requires
        q.len() > 0,
        q[0] == p,
        !m.walkable_at(p.0 as int, p.1 as int) || marked(v, p.0 as int, p.1 as int),
        forall|k: int| 0 <= k < tiles.len() ==> neighbours_settled(m, v, q, #[trigger] tiles[k]),
    ensures
        forall|k: int|
            0 <= k < tiles.len() ==> neighbours_settled(m, v, q.subrange(1, q.len() as int), #[trigger] tiles[k]),
{
    let r = q.subrange(1, q.len() as int);
    assert forall|k: int| 0 <= k < tiles.len() implies neighbours_settled(m, v, r, #[trigger] tiles[k]) by {
        let t = tiles[k];
        assert(neighbours_settled(m, v, q, t));
        lemma_settle_one(m, v, q, t.0 + 1, t.1 as int, p);
        lemma_settle_one(m, v, q, t.0 - 1, t.1 as int, p);
        lemma_settle_one(m, v, q, t.0 as int, t.1 + 1, p);
        lemma_settle_one(m, v, q, t.0 as int, t.1 - 1, p);
    }
}

proof fn lemma_settle_one(m: &TileMap, v: Seq<Vec<bool>>, q: Seq<(i32, i32)>, x: int, y: int, p: (i32, i32))
    requires
        q.len() > 0,
        q[0] == p,
        !m.walkable_at(p.0 as int, p.1 as int) || marked(v, p.0 as int, p.1 as int),
        neighbour_settled(m, v, q, x, y),
    ensures
        neighbour_settled(m, v, q.subrange(1, q.len() as int), x, y),
{
    if !(p.0 == x && p.1 == y) {
        lemma_holds_point_tail(q, x, y, p);
    }
}

proof fn lemma_queue_tail_adjacent(q: Seq<(i32, i32)>, r: Seq<(i32, i32)>, tiles: Seq<(i32, i32)>)
    requires
        q.len() > 0,
        r == q.subrange(1, q.len() as int),
        forall|k: int| 0 <= k < q.len() ==> touches_prefix(#[trigger] q[k], tiles, tiles.len() as int),
    ensures
        forall|k: int| 0 <= k < r.len() ==> touches_prefix(#[trigger] r[k], tiles, tiles.len() as int),
{
    assert forall|k: int| 0 <= k < r.len() implies touches_prefix(#[trigger] r[k], tiles, tiles.len() as int) by {
        assert(r[k] == q[k + 1]);
        assert(touches_prefix(q[k + 1], tiles, tiles.len() as int));
    }
}

proof fn lemma_marked_step(vb: Seq<Vec<bool>>, va: Seq<Vec<bool>>, p: (i32, i32))
    requires
        0 <= p.0 < vb.len(),
        0 <= p.1 < vb[p.0 as int]@.len(),
        va == vb.update(p.0 as int, va[p.0 as int]),
        va[p.0 as int]@ == vb[p.0 as int]@.update(p.1 as int, true),
    ensures
        forall|x: int, y: int|
            #![trigger marked(va, x, y)]
            marked(va, x, y) <==> (marked(vb, x, y) || (x == p.0 && y == p.1)),
        forall|x: int| 0 <= x < vb.len() ==> (#[trigger] va[x])@.len() == vb[x]@.len(),
        va.len() == vb.len(),
{
    assert forall|x: int, y: int|
        #![trigger marked(va, x, y)]
        marked(va, x, y) <==> (marked(vb, x, y) || (x == p.0 && y == p.1)) by {
        if 0 <= x < va.len() && x != p.0 {
            assert(va[x] == vb[x]);
        }
    }
    assert forall|x: int| 0 <= x < vb.len() implies (#[trigger] va[x])@.len() == vb[x]@.len() by {
        if x != p.0 {
            assert(va[x] == vb[x]);
        }
    }
}

proof fn lemma_holds_push(old_tiles: Seq<(i32, i32)>, p: (i32, i32))
    ensures
        forall|x: int, y: int|
            holds_point(old_tiles.push(p), x, y) <==> (holds_point(old_tiles, x, y) || (x == p.0 && y == p.1)),
{
    let tiles = old_tiles.push(p);
    assert forall|x: int, y: int|
        holds_point(tiles, x, y) <==> (holds_point(old_tiles, x, y) || (x == p.0 && y == p.1)) by {
        if holds_point(tiles, x, y) {
            let k = choose|k: int| 0 <= k < tiles.len() && tiles[k].0 == x && tiles[k].1 == y;
            if k < tiles.len() - 1 {
                assert(old_tiles[k] == tiles[k]);
            }
        }
        if holds_point(old_tiles, x, y) {
            let k = choose|k: int| 0 <= k < old_tiles.len() && old_tiles[k].0 == x && old_tiles[k].1 == y;
            assert(tiles[k] == old_tiles[k]);
        }
        if x == p.0 && y == p.1 {
            assert(tiles[tiles.len() - 1] == p);
        }
    }
}

proof fn lemma_push_no_dup(old_tiles: Seq<(i32, i32)>, p: (i32, i32))
    requires
        old_tiles.no_duplicates(),
        forall|k: int| 0 <= k < old_tiles.len() ==> old_tiles[k] != p,
    ensures
        old_tiles.push(p).no_duplicates(),
{
    let tiles = old_tiles.push(p);
    assert forall|i: int, j: int| 0 <= i < tiles.len() && 0 <= j < tiles.len() && i != j implies tiles[i] != tiles[j] by {
        if j == tiles.len() - 1 {
            assert(tiles[i] == old_tiles[i]);
        } else if i == tiles.len() - 1 {
            assert(tiles[j] == old_tiles[j]);
        } else {
            assert(tiles[i] == old_tiles[i]);
            assert(tiles[j] == old_tiles[j]);
        }
    }
}

proof fn lemma_queue_adjacent_step(
    qb: Seq<(i32, i32)>,
    qa: Seq<(i32, i32)>,
    old_tiles: Seq<(i32, i32)>,
    tiles: Seq<(i32, i32)>,
    p: (i32, i32),
)
    requires
        qb.len() > 0,
        qb[0] == p,
        tiles == old_tiles.push(p),
        old_tiles.len() == 0 ==> qb =~= seq![p],
        qa == qb.subrange(1, qb.len() as int).push(((p.0 + 1) as i32, p.1)).push(
            ((p.0 - 1) as i32, p.1),
        ).push((p.0, (p.1 + 1) as i32)).push((p.0, (p.1 - 1) as i32)),
        i32::MIN < p.0 < i32::MAX,
        i32::MIN < p.1 < i32::MAX,
        old_tiles.len() > 0 ==> forall|q: int|
            0 <= q < qb.len() ==> touches_prefix(#[trigger] qb[q], old_tiles, old_tiles.len() as int),
        forall|k: int| 0 < k < old_tiles.len() ==> touches_prefix(#[trigger] old_tiles[k], old_tiles, k),
    ensures
        forall|q: int| 0 <= q < qa.len() ==> touches_prefix(#[trigger] qa[q], tiles, tiles.len() as int),
        forall|k: int| 0 < k < tiles.len() ==> touches_prefix(#[trigger] tiles[k], tiles, k),
{
    let r = qb.subrange(1, qb.len() as int);
    let last = tiles.len() - 1;
    assert(tiles[last] == p);
    assert forall|q: int| 0 <= q < qa.len() implies touches_prefix(#[trigger] qa[q], tiles, tiles.len() as int) by {
        if q < r.len() {
            assert(qa[q] == qb[q + 1]);
            assert(touches_prefix(qb[q + 1], old_tiles, old_tiles.len() as int));
            let j = choose|j: int| 0 <= j < old_tiles.len() && j < old_tiles.len() && adjacent4(qb[q + 1], #[trigger] old_tiles[j]);
            assert(tiles[j] == old_tiles[j]);
        } else {
            assert(adjacent4(qa[q], tiles[last]));
        }
    }
    assert forall|k: int| 0 < k < tiles.len() implies touches_prefix(#[trigger] tiles[k], tiles, k) by {
        if k == last {
            assert(touches_prefix(qb[0], old_tiles, old_tiles.len() as int));
            let j = choose|j: int| 0 <= j < old_tiles.len() && j < old_tiles.len() && adjacent4(qb[0], #[trigger] old_tiles[j]);
            assert(tiles[j] == old_tiles[j]);
        } else {
            assert(tiles[k] == old_tiles[k]);
            assert(touches_prefix(old_tiles[k], old_tiles, k));
            let j = choose|j: int| 0 <= j < k && j < old_tiles.len() && adjacent4(old_tiles[k], #[trigger] old_tiles[j]);
            assert(tiles[j] == old_tiles[j]);
        }
    }
}

proof fn lemma_settled_step(
    m: &TileMap,
    vb: Seq<Vec<bool>>,
    va: Seq<Vec<bool>>,
    qb: Seq<(i32, i32)>,
    qa: Seq<(i32, i32)>,
    old_tiles: Seq<(i32, i32)>,
    tiles: Seq<(i32, i32)>,
    p: (i32, i32),
)
    requires
        qb.len() > 0,
        qb[0] == p,
        tiles == old_tiles.push(p),
        qa == qb.subrange(1, qb.len() as int).push(((p.0 + 1) as i32, p.1)).push(
            ((p.0 - 1) as i32, p.1),
        ).push((p.0, (p.1 + 1) as i32)).push((p.0, (p.1 - 1) as i32)),
        i32::MIN < p.0 < i32::MAX,
        i32::MIN < p.1 < i32::MAX,
        forall|x: int, y: int| #![trigger marked(va, x, y)]
            marked(va, x, y) <==> (marked(vb, x, y) || (x == p.0 && y == p.1)),
        forall|k: int| 0 <= k < old_tiles.len() ==> neighbours_settled(m, vb, qb, #[trigger] old_tiles[k]),
    ensures
        forall|k: int| 0 <= k < tiles.len() ==> neighbours_settled(m, va, qa, #[trigger] tiles[k]),
{
    let r = qb.subrange(1, qb.len() as int);
    lemma_holds_in_pushes(r, qa, ((p.0 + 1) as i32, p.1), ((p.0 - 1) as i32, p.1), (p.0, (p.1 + 1) as i32), (p.0, (p.1 - 1) as i32));
    assert forall|k: int| 0 <= k < tiles.len() implies neighbours_settled(m, va, qa, #[trigger] tiles[k]) by {
        let t = tiles[k];
        if k < tiles.len() - 1 {
            assert(t == old_tiles[k]);
            assert(neighbours_settled(m, vb, qb, t));
            lemma_settle_step(m, vb, va, qb, r, qa, p, t.0 + 1, t.1 as int);
            lemma_settle_step(m, vb, va, qb, r, qa, p, t.0 - 1, t.1 as int);
            lemma_settle_step(m, vb, va, qb, r, qa, p, t.0 as int, t.1 + 1);
            lemma_settle_step(m, vb, va, qb, r, qa, p, t.0 as int, t.1 - 1);
        } else {
            assert(t == p);
        }
    }
}

proof fn lemma_holds_in_pushes(
    r: Seq<(i32, i32)>,
    qa: Seq<(i32, i32)>,
    a: (i32, i32),
    b: (i32, i32),
    c: (i32, i32),
    d: (i32, i32),
)
    requires
        qa == r.push(a).push(b).push(c).push(d),
    ensures
        holds_point(qa, a.0 as int, a.1 as int),
        holds_point(qa, b.0 as int, b.1 as int),
        holds_point(qa, c.0 as int, c.1 as int),
        holds_point(qa, d.0 as int, d.1 as int),
        forall|x: int, y: int| holds_point(r, x, y) ==> holds_point(qa, x, y),
{
    let n = r.len() as int;
    assert(qa[n] == a);
    assert(qa[n + 1] == b);
    assert(qa[n + 2] == c);
    assert(qa[n + 3] == d);
    assert forall|x: int, y: int| holds_point(r, x, y) implies holds_point(qa, x, y) by {
        let k = choose|k: int| 0 <= k < r.len() && r[k].0 == x && r[k].1 == y;
        assert(qa[k] == r[k]);
    }
}

proof fn lemma_settle_step(
    m: &TileMap,
    vb: Seq<Vec<bool>>,
    va: Seq<Vec<bool>>,
    qb: Seq<(i32, i32)>,
    r: Seq<(i32, i32)>,
    qa: Seq<(i32, i32)>,
    p: (i32, i32),
    x: int,
    y: int,
)
    requires
        qb.len() > 0,
        qb[0] == p,
        r == qb.subrange(1, qb.len() as int),
        forall|x: int, y: int| holds_point(r, x, y) ==> holds_point(qa, x, y),
        forall|x: int, y: int| #![trigger marked(va, x, y)]
            marked(va, x, y) <==> (marked(vb, x, y) || (x == p.0 && y == p.1)),
        neighbour_settled(m, vb, qb, x, y),
    ensures
        neighbour_settled(m, va, qa, x, y),
{
    if !(x == p.0 && y == p.1) {
        lemma_holds_point_tail(qb, x, y, p);
        assert(marked(va, x, y) <==> marked(vb, x, y));
    } else {
        assert(marked(va, x, y));
    }
}


/// Number of points of `pts` that are walls or lie outside the map.
pub open spec fn count_wall_points(m: &TileMap, pts: Seq<(i32, i32)>) -> nat
    decreases pts.len(),
{
    if pts.len() == 0 {
        0
    } else {
        count_wall_points(m, pts.drop_last()) + if m.wall_or_outside(
            pts.last().0 as int,
            pts.last().1 as int,
        ) {
            1nat
        } else {
            0nat
        }
    }
}

/// The Bresenham line from `from` to `to` (the only sequence with that shape).
pub open spec fn bresenham_points(from: (i32, i32), to: (i32, i32)) -> Seq<(i32, i32)> {
    choose|pts: Seq<(i32, i32)>| is_bresenham_line(pts, from, to)
}

/// Two sequences that both have the Bresenham shape for the same endpoints are equal.
pub proof fn lemma_bresenham_unique(a: Seq<(i32, i32)>, b: Seq<(i32, i32)>, from: (i32, i32), to: (i32, i32))
    requires
        is_bresenham_line(a, from, to),
        is_bresenham_line(b, from, to),
    ensures
        a == b,
{
    assert forall|k: int| 0 <= k < a.len() && k < b.len() implies a[k] == b[k] by {
        lemma_bresenham_prefix(a, b, from, to, k);
    }
    if a.len() < b.len() {
        assert(a[a.len() - 1] == b[a.len() - 1]);
        assert(b[a.len() - 1] != to);
    } else if b.len() < a.len() {
        assert(a[b.len() - 1] == b[b.len() - 1]);
        assert(a[b.len() - 1] != to);
    }
    assert(a =~= b);
}

proof fn lemma_bresenham_prefix(a: Seq<(i32, i32)>, b: Seq<(i32, i32)>, from: (i32, i32), to: (i32, i32), k: int)
    requires
        is_bresenham_line(a, from, to),
        is_bresenham_line(b, from, to),
        0 <= k < a.len(),
        k < b.len(),
    ensures
        a[k] == b[k],
    decreases k,
{
    if k > 0 {
        lemma_bresenham_prefix(a, b, from, to, k - 1);
        assert(a[(k - 1) + 1] == b[(k - 1) + 1]);
    }
}

/// Count the wall cells (or off-map cells) on the Bresenham line from `from` to `to`.
pub fn count_walls_bresenham(m: &TileMap, from: (i32, i32), to: (i32, i32)) -> (r: usize)
    requires
        m.wf(),
        line_fits(from, to),
    ensures
        r == count_wall_points(m, bresenham_points(from, to)),
        r <= bresenham_points(from, to).len(),
        is_bresenham_line(bresenham_points(from, to), from, to),
{
    let points = bresenham_line(from, to);
    let mut count: usize = 0;
    let mut k: usize = 0;
    while k < points.len()
        invariant
            k <= points@.len(),
            m.wf(),
            count == count_wall_points(m, points@.subrange(0, k as int)),
            count <= k,
        decreases points@.len() - k,
    {
        let (x, y) = points[k];
        proof {
            assert(points@.subrange(0, k as int + 1).drop_last() =~= points@.subrange(0, k as int));
        }
        if m.is_wall(x, y) {
            count = count + 1;
        }
        k = k + 1;
    }
    proof {
        assert(points@.subrange(0, points@.len() as int) =~= points@);
    }
    count
}


/// Coordinates that stay clear of the `i32` limits by `margin`.
pub open spec fn point_within(p: (i32, i32), margin: int) -> bool {
    i32::MIN + margin <= p.0 <= i32::MAX - margin && i32::MIN + margin <= p.1 <= i32::MAX - margin
}

/// A tile of a region lies on its boundary when one of its four neighbours is
/// not part of the region.
pub open spec fn on_boundary(region: Seq<(i32, i32)>, t: (i32, i32)) -> bool {
    ||| !region.contains(((t.0 + 1) as i32, t.1))
    ||| !region.contains(((t.0 - 1) as i32, t.1))
    ||| !region.contains((t.0, (t.1 + 1) as i32))
    ||| !region.contains((t.0, (t.1 - 1) as i32))
}

/// The boundary test for a region, as a predicate on tiles.
pub open spec fn boundary_pred(region: Seq<(i32, i32)>) -> spec_fn((i32, i32)) -> bool {
    |t: (i32, i32)| on_boundary(region, t)
}

/// Whether the slice holds the point.
pub fn contains_point(pts: &[(i32, i32)], p: (i32, i32)) -> (b: bool)
    ensures
        b == pts@.contains(p),
{
    let mut k: usize = 0;
    while k < pts.len()
        invariant
            k <= pts@.len(),
            forall|i: int| 0 <= i < k ==> pts@[i] != p,
        decreases pts@.len() - k,
    {
        if pts[k].0 == p.0 && pts[k].1 == p.1 {
            return true;
        }
        k = k + 1;
    }
    false
}

/// The boundary tiles of a region, in the region's order: those with a
/// neighbour outside the region.
pub fn boundary_tiles(tiles: &[(i32, i32)]) -> (perimeter: Vec<(i32, i32)>)
    requires
        forall|k: int| 0 <= k < tiles@.len() ==> point_within(#[trigger] tiles@[k], 1),
    ensures
        perimeter@ == tiles@.filter(boundary_pred(tiles@)),
{
    let ghost pred = boundary_pred(tiles@);
    let mut perimeter: Vec<(i32, i32)> = Vec::new();
    let mut k: usize = 0;
    while k < tiles.len()
        invariant
            k <= tiles@.len(),
            forall|i: int| 0 <= i < tiles@.len() ==> point_within(#[trigger] tiles@[i], 1),
            pred == boundary_pred(tiles@),
            perimeter@ == tiles@.subrange(0, k as int).filter(pred),
        decreases tiles@.len() - k,
    {
        let (x, y) = tiles[k];
        proof {
            assert(point_within(tiles@[k as int], 1));
        }
        let c1 = contains_point(tiles, (x + 1, y));
        let c2 = contains_point(tiles, (x - 1, y));
        let c3 = contains_point(tiles, (x, y + 1));
        let c4 = contains_point(tiles, (x, y - 1));
        let edge = !c1 || !c2 || !c3 || !c4;
        proof {
            reveal_with_fuel(Seq::<_>::filter, 1);
            assert(tiles@.subrange(0, k as int + 1).drop_last() =~= tiles@.subrange(0, k as int));
            assert(tiles@[k as int] == (x, y));
            assert(edge == on_boundary(tiles@, (x, y)));
            assert(edge == pred(tiles@[k as int]));
        }
        if edge {
            perimeter.push((x, y));
        }
        k = k + 1;
    }
    proof {
        assert(tiles@.subrange(0, tiles@.len() as int) =~= tiles@);
    }
    perimeter
}

/// Some point of `pts` is within `half` cells of `(x, y)` along both axes.
pub open spec fn near_points(pts: Seq<(i32, i32)>, half: int, x: int, y: int) -> bool {
    exists|k: int| 0 <= k < pts.len() && abs_int(x - pts[k].0) <= half && abs_int(y - pts[k].1) <= half
}

/// How a tunnel changes one cell: a wall within reach becomes dry soil
/// floor, every other cell keeps its tile.
pub open spec fn carve_result(old_tile: Tile, new_tile: Tile, reached: bool) -> bool {
    if reached && old_tile is Wall {
        is_floor_named(new_tile, "dry_soil"@)
    } else {
        new_tile == old_tile
    }
}

/// The map after a tunnel along `pts` with the given half width.
pub open spec fn tunnel_carved(m0: &TileMap, m1: &TileMap, pts: Seq<(i32, i32)>, half: int) -> bool {
    &&& m1.wf()
    &&& m1.width == m0.width
    &&& m1.height == m0.height
    &&& forall|x: int, y: int|
        m0.in_bounds_spec(x, y) ==> #[trigger] carve_result(
            m0.tile_at(x, y),
            m1.tile_at(x, y),
            near_points(pts, half, x, y),
        )
}


/// A candidate tunnel between two regions, from an exit on the perimeter of
/// `region_a` to one on the perimeter of `region_b`, crossing `cost` walls.
#[derive(Debug, Clone, Copy, PartialEq, Eq)]
pub struct TunnelEdge {
    pub region_a: usize,
    pub region_b: usize,
    pub exit_a: (i32, i32),
    pub exit_b: (i32, i32),
    pub cost: usize,
}

/// The cell `(x, y)` is reached from point `k` of `pts` by an offset that
/// comes before `(cdx, cdy)` in the carving order (rows of `dy` inside columns of `dx`).
pub open spec fn reached_before(pts: Seq<(i32, i32)>, half: int, k: int, cdx: int, cdy: int, x: int, y: int) -> bool {
    ||| exists|j: int| 0 <= j < k && abs_int(x - pts[j].0) <= half && abs_int(y - pts[j].1) <= half
    ||| (0 <= k < pts.len() && {
        let ox = x - pts[k].0;
        let oy = y - pts[k].1;
        &&& -half <= ox && -half <= oy <= half
        &&& (ox < cdx || (ox == cdx && oy < cdy))
    })
}

proof fn lemma_between(a: int, b: int, v: int)
    requires
        abs_int(v - a) <= abs_int(b - a),
        (v - a) * step_sign(a, b) >= 0,
    ensures
        (a <= v <= b) || (b <= v <= a),
{
    if a < b {
        assert(v - a >= 0);
    } else {
        assert((v - a) * -1 >= 0);
    }
}

/// Carve a tunnel of the given width along the Bresenham line between the
/// edge's two exits: every wall cell within half the width (along both axes)
/// of a line point becomes dry soil floor.
pub fn carve_tunnel(map: &mut TileMap, edge: &TunnelEdge, width: usize)
    requires
        old(map).wf(),
        point_within(edge.exit_a, 0x7000_0000),
        point_within(edge.exit_b, 0x7000_0000),
        width <= 0x1fff_ffff,
    ensures
        tunnel_carved(old(map), final(map), bresenham_points(edge.exit_a, edge.exit_b), width as int / 2),
{
    let ghost m0: TileMap = *map;
    let points = bresenham_line(edge.exit_a, edge.exit_b);
    let half: i32 = (width as i32) / 2;
    let ghost h = half as int;
    let ghost pts = points@;
    let ghost from = edge.exit_a;
    let ghost to = edge.exit_b;
    proof {
        assert forall|k: int| 0 <= k < pts.len() implies point_within(#[trigger] pts[k], 0x4000_0000) by {
            lemma_between(from.0 as int, to.0 as int, pts[k].0 as int);
            lemma_between(from.1 as int, to.1 as int, pts[k].1 as int);
        }
    }
    let mut k: usize = 0;
    while k < points.len()
        invariant
            m0.wf(),
            map.wf(),
            map.width == m0.width,
            map.height == m0.height,
            points@ == pts,
            h == half,
            0 <= half <= 0x1000_0000,
            k <= pts.len(),
            forall|i: int| 0 <= i < pts.len() ==> point_within(#[trigger] pts[i], 0x4000_0000),
            forall|x: int, y: int|
                m0.in_bounds_spec(x, y) ==> #[trigger] carve_result(
                    m0.tile_at(x, y),
                    map.tile_at(x, y),
                    reached_before(pts, h, k as int, -h, -h, x, y),
                ),
        decreases pts.len() - k,
    {
        let (px, py) = points[k];
        proof {
            assert(point_within(pts[k as int], 0x4000_0000));
        }
        let mut dx: i32 = -half;
        while dx <= half
            invariant
                m0.wf(),
                map.wf(),
                map.width == m0.width,
                map.height == m0.height,
                points@ == pts,
                h == half,
                0 <= half <= 0x1000_0000,
                k < pts.len(),
                pts[k as int] == (px, py),
                point_within((px, py), 0x4000_0000),
                -h <= dx <= h + 1,
                forall|x: int, y: int|
                    m0.in_bounds_spec(x, y) ==> #[trigger] carve_result(
                        m0.tile_at(x, y),
                        map.tile_at(x, y),
                        reached_before(pts, h, k as int, dx as int, -h, x, y),
                    ),
            decreases h + 1 - dx,
        {
            let mut dy: i32 = -half;
            while dy <= half
                invariant
                    m0.wf(),
                    map.wf(),
                    map.width == m0.width,
                    map.height == m0.height,
                    points@ == pts,
                    h == half,
                    0 <= half <= 0x1000_0000,
                    k < pts.len(),
                    pts[k as int] == (px, py),
                    point_within((px, py), 0x4000_0000),
                    -h <= dx <= h,
                    -h <= dy <= h + 1,
                    forall|x: int, y: int|
                        m0.in_bounds_spec(x, y) ==> #[trigger] carve_result(
                            m0.tile_at(x, y),
                            map.tile_at(x, y),
                            reached_before(pts, h, k as int, dx as int, dy as int, x, y),
                        ),
                decreases h + 1 - dy,
            {
                let nx = px + dx;
                let ny = py + dy;
                let ghost before: TileMap = *map;
                if map.in_bounds(nx, ny) {
                    let cur_wall = map.get_tile(nx, ny).is_wall();
                    let ghost mut placed: Tile = before.tile_at(nx as int, ny as int);
                    if cur_wall {
                        let t = floor_tile("dry_soil");
                        proof {
                            placed = t;
                        }
                        map.set_tile(nx as usize, ny as usize, t);
                    }
                    proof {
                        assert forall|x: int, y: int|
                            m0.in_bounds_spec(x, y) implies #[trigger] carve_result(
                                m0.tile_at(x, y),
                                map.tile_at(x, y),
                                reached_before(pts, h, k as int, dx as int, dy as int + 1, x, y),
                            ) by {
                            assert(carve_result(m0.tile_at(x, y), before.tile_at(x, y), reached_before(pts, h, k as int, dx as int, dy as int, x, y)));
                            if x == nx && y == ny {
                                assert(reached_before(pts, h, k as int, dx as int, dy as int + 1, x, y));
                                if cur_wall {
                                    crate::map::law_set_then_get(before, *map, nx as int, ny as int, placed, x, y);
                                }
                            } else {
                                if cur_wall {
                                    crate::map::law_set_then_get(before, *map, nx as int, ny as int, placed, x, y);
                                }
                                assert(reached_before(pts, h, k as int, dx as int, dy as int + 1, x, y)
                                    == reached_before(pts, h, k as int, dx as int, dy as int, x, y));
                            }
                        }
                    }
                } else {
                    proof {
                        assert forall|x: int, y: int|
                            m0.in_bounds_spec(x, y) implies #[trigger] carve_result(
                                m0.tile_at(x, y),
                                map.tile_at(x, y),
                                reached_before(pts, h, k as int, dx as int, dy as int + 1, x, y),
                            ) by {
                            assert(carve_result(m0.tile_at(x, y), before.tile_at(x, y), reached_before(pts, h, k as int, dx as int, dy as int, x, y)));
                            assert(!(x == nx && y == ny));
                            assert(reached_before(pts, h, k as int, dx as int, dy as int + 1, x, y)
                                == reached_before(pts, h, k as int, dx as int, dy as int, x, y));
                        }
                    }
                }
                dy = dy + 1;
            }
            proof {
                assert forall|x: int, y: int|
                    m0.in_bounds_spec(x, y) implies #[trigger] carve_result(
                        m0.tile_at(x, y),
                        map.tile_at(x, y),
                        reached_before(pts, h, k as int, dx as int + 1, -h, x, y),
                    ) by {
                    assert(carve_result(m0.tile_at(x, y), map.tile_at(x, y), reached_before(pts, h, k as int, dx as int, dy as int, x, y)));
                    assert(reached_before(pts, h, k as int, dx as int + 1, -h, x, y)
                        == reached_before(pts, h, k as int, dx as int, h + 1, x, y));
                }
            }
            dx = dx + 1;
        }
        proof {
            assert forall|x: int, y: int|
                m0.in_bounds_spec(x, y) implies #[trigger] carve_result(
                    m0.tile_at(x, y),
                    map.tile_at(x, y),
                    reached_before(pts, h, k as int + 1, -h, -h, x, y),
                ) by {
                assert(carve_result(m0.tile_at(x, y), map.tile_at(x, y), reached_before(pts, h, k as int, dx as int, -h, x, y)));
                let rb = reached_before(pts, h, k as int, h + 1, -h, x, y);
                let ra = reached_before(pts, h, k as int + 1, -h, -h, x, y);
                if rb {
                    if exists|j: int| 0 <= j < k && abs_int(x - pts[j].0) <= h && abs_int(y - pts[j].1) <= h {
                        let j = choose|j: int| 0 <= j < k && abs_int(x - pts[j].0) <= h && abs_int(y - pts[j].1) <= h;
                        assert(0 <= j < k + 1 && abs_int(x - pts[j].0) <= h && abs_int(y - pts[j].1) <= h);
                    } else {
                        assert(0 <= k < k + 1 && abs_int(x - pts[k as int].0) <= h && abs_int(y - pts[k as int].1) <= h);
                    }
                }
                if ra {
                    let j = choose|j: int| 0 <= j < k + 1 && abs_int(x - pts[j].0) <= h && abs_int(y - pts[j].1) <= h;
                    if j < k {
                        assert(0 <= j < k && abs_int(x - pts[j].0) <= h && abs_int(y - pts[j].1) <= h);
                    }
                }
                assert(rb == ra);
            }
        }
        k = k + 1;
    }
    proof {
        assert forall|x: int, y: int|
            m0.in_bounds_spec(x, y) implies #[trigger] carve_result(
                m0.tile_at(x, y),
                map.tile_at(x, y),
                near_points(pts, h, x, y),
            ) by {
            assert(carve_result(m0.tile_at(x, y), map.tile_at(x, y), reached_before(pts, h, k as int, -h, -h, x, y)));
            assert(reached_before(pts, h, pts.len() as int, -h, -h, x, y) == near_points(pts, h, x, y));
        }
    }
}


/// Number of wall cells on the straight line between two points.
pub open spec fn line_cost(m: &TileMap, a: (i32, i32), b: (i32, i32)) -> nat {
    count_wall_points(m, bresenham_points(a, b))
}

proof fn lemma_count_wall_points_le(m: &TileMap, pts: Seq<(i32, i32)>)
    ensures
        count_wall_points(m, pts) <= pts.len(),
    decreases pts.len(),
{
    if pts.len() > 0 {
        lemma_count_wall_points_le(m, pts.drop_last());
    }
}


/// All points of the slice are well inside the `i32` range.
pub open spec fn points_within(pts: Seq<(i32, i32)>) -> bool {
    forall|k: int| 0 <= k < pts.len() ==> point_within(#[trigger] pts[k], 0x7000_0000)
}

/// `r` names a pair of the two candidate lists together with its tunnel cost.
pub open spec fn candidate_pair(
    m: &TileMap,
    ca: Seq<(i32, i32)>,
    cb: Seq<(i32, i32)>,
    r: ((i32, i32), (i32, i32), usize),
) -> bool {
    ca.contains(r.0) && cb.contains(r.1) && r.2 == line_cost(m, r.0, r.1)
}

/// `c` is no larger than the cost of any pair of the two lists.
pub open spec fn cheapest_cost(m: &TileMap, ca: Seq<(i32, i32)>, cb: Seq<(i32, i32)>, c: int) -> bool {
    forall|i: int, j: int| 0 <= i < ca.len() && 0 <= j < cb.len() ==> c <= line_cost(m, ca[i], cb[j])
}

/// The pair `(ia, ib)` is the first, scanning `ca` and, for each of its
/// points, `cb`, whose line costs least.
pub open spec fn first_cheapest(m: &TileMap, ca: Seq<(i32, i32)>, cb: Seq<(i32, i32)>, ia: int, ib: int) -> bool {
    &&& 0 <= ia < ca.len() && 0 <= ib < cb.len()
    &&& cheapest_cost(m, ca, cb, line_cost(m, ca[ia], cb[ib]) as int)
    &&& forall|x: int, y: int| 0 <= x < ca.len() && 0 <= y < cb.len() && (x < ia || (x == ia && y < ib)) ==> line_cost(m, ca[ia], cb[ib])
        < #[trigger] line_cost(m, ca[x], cb[y])
}

/// The result is the first cheapest pair with its cost.
pub open spec fn is_first_cheapest(m: &TileMap, ca: Seq<(i32, i32)>, cb: Seq<(i32, i32)>, t: ((i32, i32), (i32, i32), usize)) -> bool {
    exists|ia: int, ib: int| #[trigger] first_cheapest(m, ca, cb, ia, ib) && t == (ca[ia], cb[ib], line_cost(m, ca[ia], cb[ib]) as usize)
}

/// The cheapest pair over all candidates, the first in scan order.
fn cheapest_pair(ca: &[(i32, i32)], cb: &[(i32, i32)], m: &TileMap) -> (r: Option<((i32, i32), (i32, i32), usize)>)
    requires
        m.wf(),
        points_within(ca@),
        points_within(cb@),
    ensures
        r is None <==> (ca@.len() == 0 || cb@.len() == 0),
        r matches Some(t) ==> candidate_pair(m, ca@, cb@, t) && cheapest_cost(m, ca@, cb@, t.2 as int),
        r matches Some(t) ==> is_first_cheapest(m, ca@, cb@, t),
{
    let mut best: Option<((i32, i32), (i32, i32), usize)> = None;
    let ghost mut bi: int = 0;
    let ghost mut bj: int = 0;
    let mut i: usize = 0;
    while i < ca.len()
        invariant
            m.wf(),
            points_within(ca@),
            points_within(cb@),
            i <= ca@.len(),
            best is None <==> (i == 0 || cb@.len() == 0),
            best matches Some(t) ==> candidate_pair(m, ca@, cb@, t)
                && forall|a: int, b: int| 0 <= a < i && 0 <= b < cb@.len() ==> t.2 <= line_cost(m, ca@[a], cb@[b]),
            best matches Some(t) ==> 0 <= bi < i && 0 <= bj < cb@.len() && t == (ca@[bi], cb@[bj], line_cost(m, ca@[bi], cb@[bj]) as usize)
                && forall|x: int, y: int| 0 <= x < ca@.len() && 0 <= y < cb@.len() && (x < bi || (x == bi && y < bj)) ==> t.2
                < #[trigger] line_cost(m, ca@[x], cb@[y]),
        decreases ca@.len() - i,
    {
        let a = ca[i];
        let mut j: usize = 0;
        while j < cb.len()
            invariant
                m.wf(),
                points_within(ca@),
                points_within(cb@),
                i < ca@.len(),
                a == ca@[i as int],
                j <= cb@.len(),
                best is None <==> ((i == 0 && j == 0) || cb@.len() == 0),
                best matches Some(t) ==> candidate_pair(m, ca@, cb@, t)
                    && (forall|x: int, y: int| 0 <= x < i && 0 <= y < cb@.len() ==> t.2 <= line_cost(m, ca@[x], cb@[y]))
                    && (forall|y: int| 0 <= y < j ==> t.2 <= line_cost(m, ca@[i as int], cb@[y])),
                best matches Some(t) ==> 0 <= bi <= i && 0 <= bj < cb@.len() && (bi == i ==> bj < j) && t == (ca@[bi], cb@[bj], line_cost(
                    m,
                    ca@[bi],
                    cb@[bj],
                ) as usize) && forall|x: int, y: int| 0 <= x < ca@.len() && 0 <= y < cb@.len() && (x < bi || (x == bi && y < bj)) ==> t.2
                    < #[trigger] line_cost(m, ca@[x], cb@[y]),
            decreases cb@.len() - j,
        {
            let b = cb[j];
            proof {
                assert(point_within(ca@[i as int], 0x7000_0000));
                assert(point_within(cb@[j as int], 0x7000_0000));
            }
            let cost = count_walls_bresenham(m, a, b);
            let better = match best {
                None => true,
                Some(t) => cost < t.2,
            };
            if better {
                proof {
                    if let Some(t) = best {
                        assert forall|x: int, y: int| 0 <= x < ca@.len() && 0 <= y < cb@.len() && (x < i || (x == i && y < j)) implies cost
                            < #[trigger] line_cost(m, ca@[x], cb@[y]) by {
                            if x < i {
                            } else {
                            }
                        }
                    }
                }
                best = Some((a, b, cost));
                proof {
                    bi = i as int;
                    bj = j as int;
                    assert(ca@.contains(a) && cb@.contains(b)) by {
                        assert(ca@[i as int] == a);
                        assert(cb@[j as int] == b);
                    }
                }
            }
            j = j + 1;
        }
        i = i + 1;
    }
    proof {
        if let Some(t) = best {
            assert(first_cheapest(m, ca@, cb@, bi, bj));
        }
    }
    best
}

proof fn lemma_chunk_bounds(len: int, bins: int, chunk: int, i: int)
    requires
        bins > 0,
        len >= 0,
        chunk == (len + bins - 1) / bins,
        0 <= i < bins,
    ensures
        0 <= i * chunk,
        (i + 1) * chunk <= len + bins - 1,
        i * chunk <= (i + 1) * chunk,
        len >= 1 ==> chunk >= 1 && i * chunk < (i + 1) * chunk,
{
    if len >= 1 {
        assert((len + bins - 1) / bins >= 1) by (nonlinear_arith)
            requires
                bins > 0,
                len >= 1,
        ;
        assert(i * chunk < (i + 1) * chunk) by (nonlinear_arith)
            requires
                chunk >= 1,
        ;
    }
    assert(chunk * bins <= len + bins - 1) by (nonlinear_arith)
        requires
            bins > 0,
            len >= 0,
            chunk == (len + bins - 1) / bins,
    ;
    assert((i + 1) * chunk <= bins * chunk) by (nonlinear_arith)
        requires
            0 <= i < bins,
            chunk >= 0,
    ;
    assert(0 <= i * chunk <= (i + 1) * chunk) by (nonlinear_arith)
        requires
            0 <= i,
            chunk >= 0,
    ;
}

proof fn lemma_subrange_contains(s: Seq<(i32, i32)>, lo: int, hi: int, p: (i32, i32))
    requires
        0 <= lo <= hi <= s.len(),
        s.subrange(lo, hi).contains(p),
    ensures
        s.contains(p),
{
    let k = choose|k: int| 0 <= k < hi - lo && s.subrange(lo, hi)[k] == p;
    assert(s[lo + k] == p);
}

/// Frustum ray refinement: narrow both candidate lists down to the bins whose
/// first points give the cheapest line, `depth` times, then search the pair
/// with the cheapest line exhaustively.
pub fn frr_refine(
    candidates_a: &[(i32, i32)],
    candidates_b: &[(i32, i32)],
    map: &TileMap,
    depth: usize,
    bins: usize,
) -> (r: Option<((i32, i32), (i32, i32), usize)>)
    requires
        map.wf(),
        bins > 0 || depth == 0,
        candidates_a@.len() + bins <= usize::MAX,
        candidates_b@.len() + bins <= usize::MAX,
        points_within(candidates_a@),
        points_within(candidates_b@),
    ensures
        r is None <==> (candidates_a@.len() == 0 || candidates_b@.len() == 0),
        r matches Some(t) ==> candidate_pair(map, candidates_a@, candidates_b@, t),
        (depth == 0 || candidates_a@.len() <= bins || candidates_b@.len() <= bins) ==> (r matches Some(t)
            ==> cheapest_cost(map, candidates_a@, candidates_b@, t.2 as int) && is_first_cheapest(map, candidates_a@, candidates_b@, t)),
    decreases depth,
{
    if candidates_a.len() == 0 || candidates_b.len() == 0 {
        return None;
    }
    if depth == 0 || candidates_a.len() <= bins || candidates_b.len() <= bins {
        return cheapest_pair(candidates_a, candidates_b, map);
    }
    let len_a = candidates_a.len();
    let len_b = candidates_b.len();
    let chunk_a = (len_a + bins - 1) / bins;
    let chunk_b = (len_b + bins - 1) / bins;
    let lim_a = if bins < len_a { bins } else { len_a };
    let lim_b = if bins < len_b { bins } else { len_b };
    let mut best_i: usize = 0;
    let mut best_j: usize = 0;
    let mut best_cost: usize = usize::MAX;
    let mut i: usize = 0;
    while i < lim_a
        invariant
            map.wf(),
            bins > 0,
            len_a == candidates_a@.len(),
            len_b == candidates_b@.len(),
            len_a > bins,
            len_b > bins,
            lim_a == bins,
            lim_b == bins,
            chunk_a == (len_a + bins - 1) as int / bins as int,
            chunk_b == (len_b + bins - 1) as int / bins as int,
            len_a + bins <= usize::MAX,
            len_b + bins <= usize::MAX,
            points_within(candidates_a@),
            points_within(candidates_b@),
            i <= lim_a,
            best_i < bins,
            best_j < bins,
            best_i * chunk_a < len_a,
            best_j * chunk_b < len_b,
            i > 0 ==> best_cost < usize::MAX,
        decreases lim_a - i,
    {
        let mut j: usize = 0;
        while j < lim_b
            invariant
                map.wf(),
                bins > 0,
                len_a == candidates_a@.len(),
                len_b == candidates_b@.len(),
                len_a > bins,
                len_b > bins,
                lim_a == bins,
                lim_b == bins,
                chunk_a == (len_a + bins - 1) as int / bins as int,
                chunk_b == (len_b + bins - 1) as int / bins as int,
                len_a + bins <= usize::MAX,
                len_b + bins <= usize::MAX,
                points_within(candidates_a@),
                points_within(candidates_b@),
                i < lim_a,
                j <= lim_b,
                best_i < bins,
                best_j < bins,
                best_i * chunk_a < len_a,
                best_j * chunk_b < len_b,
                (i > 0 || j > 0) ==> best_cost < usize::MAX,
            decreases lim_b - j,
        {
            proof {
                lemma_chunk_bounds(len_a as int, bins as int, chunk_a as int, i as int);
                lemma_chunk_bounds(len_b as int, bins as int, chunk_b as int, j as int);
            }
            let start_a = i * chunk_a;
            let start_b = j * chunk_b;
            if start_a < len_a && start_b < len_b {
                let sample_a = candidates_a[start_a];
                let sample_b = candidates_b[start_b];
                proof {
                    assert(point_within(candidates_a@[start_a as int], 0x7000_0000));
                    assert(point_within(candidates_b@[start_b as int], 0x7000_0000));
                }
                let cost = count_walls_bresenham(map, sample_a, sample_b);
                proof {
                    let pts = bresenham_points(sample_a, sample_b);
                    assert(pts.len() <= abs_int(sample_b.0 - sample_a.0) + abs_int(sample_b.1 - sample_a.1) + 1);
                }
                if cost < best_cost {
                    best_i = i;
                    best_j = j;
                    best_cost = cost;
                }
            }
            j = j + 1;
        }
        i = i + 1;
    }
    proof {
        lemma_chunk_bounds(len_a as int, bins as int, chunk_a as int, best_i as int);
        lemma_chunk_bounds(len_b as int, bins as int, chunk_b as int, best_j as int);
    }
    let start_a = best_i * chunk_a;
    let end_a = if (best_i + 1) * chunk_a < len_a { (best_i + 1) * chunk_a } else { len_a };
    let start_b = best_j * chunk_b;
    let end_b = if (best_j + 1) * chunk_b < len_b { (best_j + 1) * chunk_b } else { len_b };
    let sub_a = &candidates_a[start_a..end_a];
    let sub_b = &candidates_b[start_b..end_b];
    proof {
        assert(sub_a@ =~= candidates_a@.subrange(start_a as int, end_a as int));
        assert(sub_b@ =~= candidates_b@.subrange(start_b as int, end_b as int));
        assert forall|k: int| 0 <= k < sub_a@.len() implies point_within(#[trigger] sub_a@[k], 0x7000_0000) by {
            assert(sub_a@[k] == candidates_a@[start_a + k]);
        }
        assert forall|k: int| 0 <= k < sub_b@.len() implies point_within(#[trigger] sub_b@[k], 0x7000_0000) by {
            assert(sub_b@[k] == candidates_b@[start_b + k]);
        }
    }
    let r = frr_refine(sub_a, sub_b, map, depth - 1, bins);
    proof {
        if let Some(t) = r {
            lemma_subrange_contains(candidates_a@, start_a as int, end_a as int, t.0);
            lemma_subrange_contains(candidates_b@, start_b as int, end_b as int, t.1);
        }
    }
    r
}


/// The point where a descent along a perimeter starts: the initial exit if
/// the perimeter holds it, else the perimeter's first point.
pub open spec fn start_point(perimeter: Seq<(i32, i32)>, initial: (i32, i32)) -> (i32, i32) {
    if perimeter.contains(initial) { initial } else { perimeter[0] }
}

/// Index of the first occurrence of `p`, or 0.
fn position_or_zero(pts: &[(i32, i32)], p: (i32, i32)) -> (i: usize)
    requires
        pts@.len() > 0,
    ensures
        i < pts@.len(),
        pts@[i as int] == start_point(pts@, p),
{
    let mut k: usize = 0;
    while k < pts.len()
        invariant
            k <= pts@.len(),
            forall|j: int| 0 <= j < k ==> pts@[j] != p,
        decreases pts@.len() - k,
    {
        if pts[k].0 == p.0 && pts[k].1 == p.1 {
            proof {
                assert(pts@.contains(p));
            }
            return k;
        }
        k = k + 1;
    }
    0
}

/// Step an index around a cyclic perimeter of length `len` by -1, 0 or +1.
fn cyclic_step(idx: usize, delta: i32, len: usize) -> (r: usize)
    requires
        idx < len,
        -1 <= delta <= 1,
    ensures
        r < len,
        r as int == (idx as int + delta as int) % (len as int),
{
    let r = if delta < 0 {
        if idx == 0 { len - 1 } else { idx - 1 }
    } else if delta > 0 {
        if idx + 1 == len { 0 } else { idx + 1 }
    } else {
        idx
    };
    proof {
        let n = len as int;
        let v = idx as int + delta as int;
        if v < 0 {
            assert(v == -1);
            assert((-1int) % n == n - 1) by (nonlinear_arith)
                requires
                    n > 0,
            ;
        } else if v == n {
            assert(n % n == 0) by (nonlinear_arith)
                requires
                    n > 0,
            ;
        } else {
            assert(v % n == v) by (nonlinear_arith)
                requires
                    0 <= v < n,
            ;
        }
    }
    r
}

/// Perimeter gradient descent: starting from the given exits, repeatedly move
/// one or both exits a step along their perimeters (at most `pgd_skew` steps
/// apart) while that makes the tunnel cheaper, for at most `pgd_max_iter` rounds.
pub fn perimeter_gradient_descent(
    perimeter_a: &[(i32, i32)],
    perimeter_b: &[(i32, i32)],
    initial_a: (i32, i32),
    initial_b: (i32, i32),
    map: &TileMap,
    pgd_skew: usize,
    pgd_max_iter: usize,
) -> (r: Option<((i32, i32), (i32, i32), usize)>)
    requires
        map.wf(),
        points_within(perimeter_a@),
        points_within(perimeter_b@),
    ensures
        r is None <==> (perimeter_a@.len() == 0 || perimeter_b@.len() == 0),
        r matches Some(t) ==> candidate_pair(map, perimeter_a@, perimeter_b@, t) && t.2 <= line_cost(
            map,
            start_point(perimeter_a@, initial_a),
            start_point(perimeter_b@, initial_b),
        ),
{
    if perimeter_a.len() == 0 || perimeter_b.len() == 0 {
        return None;
    }
    let len_a = perimeter_a.len();
    let len_b = perimeter_b.len();
    let mut idx_a = position_or_zero(perimeter_a, initial_a);
    let mut idx_b = position_or_zero(perimeter_b, initial_b);
    proof {
        assert(point_within(perimeter_a@[idx_a as int], 0x7000_0000));
        assert(point_within(perimeter_b@[idx_b as int], 0x7000_0000));
    }
    let mut best_cost = count_walls_bresenham(map, perimeter_a[idx_a], perimeter_b[idx_b]);
    let ghost initial_cost = best_cost;
    let deltas: [(i32, i32); 6] = [(-1, 0), (1, 0), (0, -1), (0, 1), (-1, -1), (1, 1)];
    let mut iter: usize = 0;
    while iter < pgd_max_iter
        invariant
            map.wf(),
            points_within(perimeter_a@),
            points_within(perimeter_b@),
            len_a == perimeter_a@.len(),
            len_b == perimeter_b@.len(),
            idx_a < len_a,
            idx_b < len_b,
            best_cost == line_cost(map, perimeter_a@[idx_a as int], perimeter_b@[idx_b as int]),
            best_cost <= initial_cost,
            initial_cost == line_cost(
                map,
                start_point(perimeter_a@, initial_a),
                start_point(perimeter_b@, initial_b),
            ),
            forall|d: int| 0 <= d < 6 ==> -1 <= #[trigger] deltas@[d].0 <= 1 && -1 <= deltas@[d].1 <= 1,
        decreases pgd_max_iter - iter,
    {
        let mut improved = false;
        let mut d: usize = 0;
        while d < 6
            invariant
                map.wf(),
                points_within(perimeter_a@),
                points_within(perimeter_b@),
                len_a == perimeter_a@.len(),
                len_b == perimeter_b@.len(),
                idx_a < len_a,
                idx_b < len_b,
                best_cost == line_cost(map, perimeter_a@[idx_a as int], perimeter_b@[idx_b as int]),
                best_cost <= initial_cost,
                d <= 6,
                forall|d: int| 0 <= d < 6 ==> -1 <= #[trigger] deltas@[d].0 <= 1 && -1 <= deltas@[d].1 <= 1,
            decreases 6 - d,
        {
            let (da, db) = deltas[d];
            proof {
                assert(-1 <= deltas@[d as int].0 <= 1 && -1 <= deltas@[d as int].1 <= 1);
            }
            let skew: usize = if da >= db { (da - db) as usize } else { (db - da) as usize };
            if skew <= pgd_skew {
                let new_a = cyclic_step(idx_a, da, len_a);
                let new_b = cyclic_step(idx_b, db, len_b);
                proof {
                    assert(point_within(perimeter_a@[new_a as int], 0x7000_0000));
                    assert(point_within(perimeter_b@[new_b as int], 0x7000_0000));
                }
                let cost = count_walls_bresenham(map, perimeter_a[new_a], perimeter_b[new_b]);
                if cost < best_cost {
                    best_cost = cost;
                    idx_a = new_a;
                    idx_b = new_b;
                    improved = true;
                    break;
                }
            }
            d = d + 1;
        }
        if !improved {
            break;
        }
        iter = iter + 1;
    }
    proof {
        assert(perimeter_a@.contains(perimeter_a@[idx_a as int]));
        assert(perimeter_b@.contains(perimeter_b@[idx_b as int]));
    }
    Some((perimeter_a[idx_a], perimeter_b[idx_b], best_cost))
}


/// The walkable neighbours of `p` all belong to `region`.
pub open spec fn neighbours_inside(m: &TileMap, region: Seq<(i32, i32)>, p: (i32, i32)) -> bool {
    &&& m.walkable_at(p.0 + 1, p.1 as int) ==> holds_point(region, p.0 + 1, p.1 as int)
    &&& m.walkable_at(p.0 - 1, p.1 as int) ==> holds_point(region, p.0 - 1, p.1 as int)
    &&& m.walkable_at(p.0 as int, p.1 + 1) ==> holds_point(region, p.0 as int, p.1 + 1)
    &&& m.walkable_at(p.0 as int, p.1 - 1) ==> holds_point(region, p.0 as int, p.1 - 1)
}

/// A connected region of walkable cells: non-empty, without repeats, every
/// cell walkable, every cell after the first next to an earlier one, and
/// closed under walking to a neighbour.
pub open spec fn is_floor_region(m: &TileMap, region: Seq<(i32, i32)>) -> bool {
    &&& region.len() > 0
    &&& region.no_duplicates()
    &&& forall|k: int| 0 <= k < region.len() ==> m.walkable_at(#[trigger] region[k].0 as int, region[k].1 as int)
    &&& forall|k: int| 0 < k < region.len() ==> touches_prefix(#[trigger] region[k], region, k)
    &&& forall|k: int| 0 <= k < region.len() ==> neighbours_inside(m, region, #[trigger] region[k])
}

/// The cell belongs to one of the regions.
pub open spec fn in_regions(regions: Seq<Vec<(i32, i32)>>, x: int, y: int) -> bool {
    exists|r: int| 0 <= r < regions.len() && holds_point(#[trigger] regions[r]@, x, y)
}

/// The regions share no cell.
pub open spec fn regions_disjoint(regions: Seq<Vec<(i32, i32)>>) -> bool {
    forall|r1: int, r2: int, x: int, y: int|
        0 <= r1 < regions.len() && 0 <= r2 < regions.len() && r1 != r2 && #[trigger] holds_point(regions[r1]@, x, y)
            ==> !#[trigger] holds_point(regions[r2]@, x, y)
}

/// A visited grid with every cell unmarked.
pub(crate) fn unvisited_grid(width: usize, height: usize) -> (v: Vec<Vec<bool>>)
    ensures
        v@.len() == width,
        forall|x: int| 0 <= x < width ==> (#[trigger] v@[x])@.len() == height,
        forall|x: int, y: int| !marked(v@, x, y),
{
    let mut v: Vec<Vec<bool>> = Vec::new();
    let mut x: usize = 0;
    while x < width
        invariant
            x <= width,
            v@.len() == x,
            forall|i: int| 0 <= i < x ==> (#[trigger] v@[i])@.len() == height,
            forall|i: int, j: int| !marked(v@, i, j),
        decreases width - x,
    {
        let mut col: Vec<bool> = Vec::new();
        let mut y: usize = 0;
        while y < height
            invariant
                y <= height,
                col@.len() == y,
                forall|j: int| 0 <= j < y ==> !col@[j],
            decreases height - y,
        {
            col.push(false);
            y = y + 1;
        }
        let ghost old_v = v@;
        v.push(col);
        proof {
            assert forall|i: int, j: int| !marked(v@, i, j) by {
                if 0 <= i < old_v.len() {
                    assert(v@[i] == old_v[i]);
                    assert(!marked(old_v, i, j));
                }
            }
        }
        x = x + 1;
    }
    v
}

pub(crate) proof fn lemma_new_region(
    m: &TileMap,
    regions: Seq<Vec<(i32, i32)>>,
    region: Vec<(i32, i32)>,
    start: (i32, i32),
    v0: Seq<Vec<bool>>,
    v1: Seq<Vec<bool>>,
)
    requires
        m.wf(),
        m.walkable_at(start.0 as int, start.1 as int),
        !marked(v0, start.0 as int, start.1 as int),
        flood_fill_post(m, start, v0, v1, region@),
        forall|x: int, y: int| #![trigger marked(v0, x, y)] marked(v0, x, y) <==> in_regions(regions, x, y),
        forall|r: int| 0 <= r < regions.len() ==> is_floor_region(m, #[trigger] regions[r]@),
        regions_disjoint(regions),
    ensures
        is_floor_region(m, region@),
        forall|x: int, y: int| #![trigger marked(v1, x, y)] marked(v1, x, y) <==> in_regions(regions.push(region), x, y),
        forall|r: int| 0 <= r < regions.push(region).len() ==> is_floor_region(m, #[trigger] regions.push(region)[r]@),
        regions_disjoint(regions.push(region)),
{
    let t = region@;
    let nr = regions.push(region);
    assert forall|r: int| 0 <= r < regions.len() implies #[trigger] nr[r] == regions[r] by {}
    assert(nr[regions.len() as int] == region);
    // membership
    assert forall|x: int, y: int| #![trigger marked(v1, x, y)] marked(v1, x, y) <==> in_regions(nr, x, y) by {
        if in_regions(nr, x, y) {
            let r = choose|r: int| 0 <= r < nr.len() && holds_point(#[trigger] nr[r]@, x, y);
            if r < regions.len() {
                assert(in_regions(regions, x, y));
                assert(marked(v0, x, y));
            }
        }
        if marked(v1, x, y) {
            if marked(v0, x, y) {
                let r = choose|r: int| 0 <= r < regions.len() && holds_point(#[trigger] regions[r]@, x, y);
                assert(holds_point(nr[r]@, x, y));
            } else {
                assert(holds_point(nr[regions.len() as int]@, x, y));
            }
        }
    }
    // the new cells were in no earlier region
    assert forall|x: int, y: int| holds_point(t, x, y) implies !in_regions(regions, x, y) by {
        let k = choose|k: int| 0 <= k < t.len() && t[k].0 == x && t[k].1 == y;
        assert(!marked(v0, t[k].0 as int, t[k].1 as int));
        assert(!marked(v0, x, y));
    }
    // closedness of the new region
    assert forall|k: int| 0 <= k < t.len() implies neighbours_inside(m, t, #[trigger] t[k]) by {
        let p = t[k];
        assert(neighbours_settled(m, v1, Seq::empty(), p));
        assert(!marked(v0, p.0 as int, p.1 as int));
        lemma_neighbour_inside(m, regions, t, v0, v1, p, p.0 + 1, p.1 as int);
        lemma_neighbour_inside(m, regions, t, v0, v1, p, p.0 - 1, p.1 as int);
        lemma_neighbour_inside(m, regions, t, v0, v1, p, p.0 as int, p.1 + 1);
        lemma_neighbour_inside(m, regions, t, v0, v1, p, p.0 as int, p.1 - 1);
    }
    assert(is_floor_region(m, t));
    assert forall|r: int| 0 <= r < nr.len() implies is_floor_region(m, #[trigger] nr[r]@) by {
        if r < regions.len() {
            assert(nr[r] == regions[r]);
        }
    }
    assert forall|r1: int, r2: int, x: int, y: int|
        0 <= r1 < nr.len() && 0 <= r2 < nr.len() && r1 != r2 && #[trigger] holds_point(nr[r1]@, x, y)
            implies !#[trigger] holds_point(nr[r2]@, x, y) by {
        if r1 < regions.len() && r2 < regions.len() {
            assert(nr[r1] == regions[r1]);
            assert(nr[r2] == regions[r2]);
        } else if r1 < regions.len() {
            assert(nr[r1] == regions[r1]);
            assert(in_regions(regions, x, y));
        } else {
            assert(nr[r2] == regions[r2]);
            if holds_point(nr[r2]@, x, y) {
                assert(in_regions(regions, x, y));
            }
        }
    }
}

proof fn lemma_neighbour_inside(
    m: &TileMap,
    regions: Seq<Vec<(i32, i32)>>,
    t: Seq<(i32, i32)>,
    v0: Seq<Vec<bool>>,
    v1: Seq<Vec<bool>>,
    p: (i32, i32),
    nx: int,
    ny: int,
)
    requires
        m.wf(),
        m.walkable_at(p.0 as int, p.1 as int),
        !marked(v0, p.0 as int, p.1 as int),
        abs_int(nx - p.0) + abs_int(ny - p.1) == 1,
        neighbour_settled(m, v1, Seq::empty(), nx, ny),
        forall|x: int, y: int| #![trigger marked(v1, x, y)] marked(v1, x, y) <==> (marked(v0, x, y) || holds_point(t, x, y)),
        forall|x: int, y: int| #![trigger marked(v0, x, y)] marked(v0, x, y) <==> in_regions(regions, x, y),
        forall|r: int| 0 <= r < regions.len() ==> is_floor_region(m, #[trigger] regions[r]@),
    ensures
        m.walkable_at(nx, ny) ==> holds_point(t, nx, ny),
{
    if m.walkable_at(nx, ny) {
        assert(!holds_point(Seq::<(i32, i32)>::empty(), nx, ny));
        assert(marked(v1, nx, ny));
        if marked(v0, nx, ny) {
            let r = choose|r: int| 0 <= r < regions.len() && holds_point(#[trigger] regions[r]@, nx, ny);
            let reg = regions[r]@;
            assert(is_floor_region(m, reg));
            let k = choose|k: int| 0 <= k < reg.len() && reg[k].0 == nx && reg[k].1 == ny;
            assert(neighbours_inside(m, reg, reg[k]));
            assert(holds_point(reg, p.0 as int, p.1 as int));
            assert(in_regions(regions, p.0 as int, p.1 as int));
            assert(marked(v0, p.0 as int, p.1 as int));
        }
    }
}

/// All connected regions of walkable cells, in column-major scan order of
/// their first cell: every walkable cell lies in exactly one region, and each
/// region is a connected set closed under walking to a neighbour.
pub fn floor_regions(m: &TileMap) -> (regions: Vec<Vec<(i32, i32)>>)
    requires
        m.wf(),
    ensures
        forall|r: int| 0 <= r < regions@.len() ==> is_floor_region(m, #[trigger] regions@[r]@),
        forall|x: int, y: int| m.walkable_at(x, y) <==> in_regions(regions@, x, y),
        regions_disjoint(regions@),
{
    let mut visited = unvisited_grid(m.width, m.height);
    let mut regions: Vec<Vec<(i32, i32)>> = Vec::new();
    let mut x: usize = 0;
    while x < m.width
        invariant
            m.wf(),
            visited_shape(m, visited@),
            x <= m.width,
            forall|i: int, j: int| #![trigger marked(visited@, i, j)] marked(visited@, i, j) <==> in_regions(regions@, i, j),
            forall|r: int| 0 <= r < regions@.len() ==> is_floor_region(m, #[trigger] regions@[r]@),
            regions_disjoint(regions@),
            forall|i: int, j: int| 0 <= i < x && m.walkable_at(i, j) ==> marked(visited@, i, j),
        decreases m.width - x,
    {
        let mut y: usize = 0;
        while y < m.height
            invariant
                m.wf(),
                visited_shape(m, visited@),
                x < m.width,
                y <= m.height,
                forall|i: int, j: int| #![trigger marked(visited@, i, j)] marked(visited@, i, j) <==> in_regions(regions@, i, j),
                forall|r: int| 0 <= r < regions@.len() ==> is_floor_region(m, #[trigger] regions@[r]@),
                regions_disjoint(regions@),
                forall|i: int, j: int|
                    ((0 <= i < x) || (i == x && 0 <= j < y)) && m.walkable_at(i, j) ==> marked(visited@, i, j),
            decreases m.height - y,
        {
            let xi = x as i32;
            let yi = y as i32;
            let seen = visited[x][y];
            if !seen && m.is_walkable(xi, yi) {
                let ghost v0 = visited@;
                let ghost old_regions = regions@;
                let tiles = flood_fill(m, xi, yi, &mut visited);
                proof {
                    lemma_new_region(m, old_regions, tiles, (xi, yi), v0, visited@);
                    assert forall|i: int, j: int|
                        ((0 <= i < x) || (i == x && 0 <= j <= y)) && m.walkable_at(i, j) implies marked(visited@, i, j) by {
                        if !(i == x && j == y) {
                            assert(marked(v0, i, j));
                        } else {
                            assert(holds_point(tiles@, i, j)) by {
                                assert(tiles@[0] == (xi, yi));
                            }
                        }
                    }
                }
                regions.push(tiles);
                proof {
                    assert(regions@ == old_regions.push(tiles));
                }
            } else {
                proof {
                    assert forall|i: int, j: int|
                        ((0 <= i < x) || (i == x && 0 <= j <= y)) && m.walkable_at(i, j) implies marked(visited@, i, j) by {
                        if i == x && j == y {
                            assert(marked(visited@, i, j));
                        }
                    }
                }
            }
            y = y + 1;
        }
        x = x + 1;
    }
    proof {
        assert forall|i: int, j: int| m.walkable_at(i, j) <==> in_regions(regions@, i, j) by {
            if in_regions(regions@, i, j) {
                let r = choose|r: int| 0 <= r < regions@.len() && holds_point(#[trigger] regions@[r]@, i, j);
                let reg = regions@[r]@;
                assert(is_floor_region(m, reg));
                let k = choose|k: int| 0 <= k < reg.len() && reg[k].0 == i && reg[k].1 == j;
                assert(m.walkable_at(reg[k].0 as int, reg[k].1 as int));
            }
            if m.walkable_at(i, j) {
                assert(marked(visited@, i, j));
            }
        }
    }
    regions
}

} // verus!
