//! Mazes carved by recursive backtracking on a grid of cells, each cell
//! drawn as a square block of tiles.

use vstd::prelude::*;
use rand_chacha::ChaCha8Rng;
use crate::structures::Rectangle;
use crate::connectivity::{count_unvisited, lemma_count_unvisited_update};
use crate::rng::{gen_range_u32, gen_range_usize};

verus! {

/// The maze-building strategy; all three carve by recursive backtracking.
#[derive(Debug, Clone, Copy, PartialEq, Eq)]
pub enum MazeAlgorithm {
    RecursiveBacktracking,
    Kruskal,
    Prim,
}

/// Maze settings. `loop_chance` is in millionths.
#[derive(Debug, Clone, Copy)]
pub struct MazeParams {
    pub cell_size: u32,
    pub wall_thickness: u32,
    pub algorithm: MazeAlgorithm,
    pub add_loops: bool,
    pub loop_chance: u32,
}

impl Default for MazeParams {
    fn default() -> (p: Self)
        ensures
            p.cell_size == 3,
            p.wall_thickness == 1,
            p.algorithm == MazeAlgorithm::RecursiveBacktracking,
            p.add_loops,
            p.loop_chance == 100_000,
    {
        MazeParams {
            cell_size: 3,
            wall_thickness: 1,
            algorithm: MazeAlgorithm::RecursiveBacktracking,
            add_loops: true,
            loop_chance: 100_000,
        }
    }
}

/// Generates mazes.
pub struct MazeGenerator {
    pub params: MazeParams,
}

/// The grid has `h` rows of `w` cells.
pub open spec fn grid_shaped(g: Seq<Vec<bool>>, w: int, h: int) -> bool {
    &&& g.len() == h
    &&& forall|y: int| 0 <= y < h ==> (#[trigger] g[y])@.len() == w
}

/// The grid cell is open (carved).
pub open spec fn open_cell(g: Seq<Vec<bool>>, x: int, y: int) -> bool {
    0 <= y < g.len() && 0 <= x < g[y]@.len() && g[y]@[x]
}

/// Append `c` when `ok`.
pub open spec fn push_if(s: Seq<(u32, u32)>, c: (u32, u32), ok: bool) -> Seq<(u32, u32)> {
    if ok { s.push(c) } else { s }
}

/// A closed cell two steps away, inside the grid.
pub open spec fn closed_at(g: Seq<Vec<bool>>, w: int, h: int, x: int, y: int) -> bool {
    0 <= x < w && 0 <= y < h && !g[y]@[x]
}

/// The closed cells two steps up, right, down and left, in that order.
pub open spec fn closed_neighbours(g: Seq<Vec<bool>>, w: int, h: int, x: int, y: int) -> Seq<(u32, u32)> {
    push_if(
        push_if(
            push_if(
                push_if(Seq::empty(), (x as u32, (y - 2) as u32), closed_at(g, w, h, x, y - 2)),
                ((x + 2) as u32, y as u32),
                closed_at(g, w, h, x + 2, y),
            ),
            (x as u32, (y + 2) as u32),
            closed_at(g, w, h, x, y + 2),
        ),
        ((x - 2) as u32, y as u32),
        closed_at(g, w, h, x - 2, y),
    )
}

/// Open one grid cell.
fn open(grid: &mut Vec<Vec<bool>>, x: u32, y: u32, Ghost(w): Ghost<int>, Ghost(h): Ghost<int>)
    requires
        grid_shaped(old(grid)@, w, h),
        x < w,
        y < h,
    ensures
        grid_shaped(final(grid)@, w, h),
        open_cell(final(grid)@, x as int, y as int),
        forall|a: int, b: int| (a != x || b != y) ==> #[trigger] open_cell(final(grid)@, a, b) == open_cell(
            old(grid)@,
            a,
            b,
        ),
        count_unvisited(final(grid)@) <= count_unvisited(old(grid)@),
        !open_cell(old(grid)@, x as int, y as int) ==> count_unvisited(final(grid)@) + 1 == count_unvisited(
            old(grid)@,
        ),
{
    let yi = y as usize;
    let xi = x as usize;
    if grid[yi][xi] {
        return;
    }
    let mut row = grid[yi].clone();
    proof {
        assert(row@ =~= grid@[yi as int]@);
    }
    row.set(xi, true);
    proof {
        lemma_count_unvisited_update(grid@, yi as int, row, xi as int);
    }
    grid.set(yi, row);
}

impl MazeGenerator {
    /// A generator with the given settings.
    pub fn new(params: MazeParams) -> (g: Self)
        ensures
            g.params == params,
    {
        MazeGenerator { params }
    }

    /// The closed cells two steps up, right, down and left of `(x, y)`.
    pub fn get_unvisited_neighbors(x: u32, y: u32, grid: &Vec<Vec<bool>>, width: u32, height: u32) -> (n: Vec<(u32, u32)>)
        requires
            grid_shaped(grid@, width as int, height as int),
            x < width,
            y < height,
        ensures
            n@ == closed_neighbours(grid@, width as int, height as int, x as int, y as int),
    {
        let mut n: Vec<(u32, u32)> = Vec::new();
        let ghost g = grid@;
        let ghost (w, h) = (width as int, height as int);
        let ghost s0 = Seq::<(u32, u32)>::empty();
        assert(n@ == s0);
        if y >= 2 && !grid[(y - 2) as usize][x as usize] {
            n.push((x, y - 2));
        }
        let ghost s1 = push_if(s0, (x as u32, (y - 2) as u32), closed_at(g, w, h, x as int, y - 2));
        assert(n@ == s1);
        if width >= 2 && x < width - 2 && !grid[y as usize][(x + 2) as usize] {
            n.push((x + 2, y));
        }
        let ghost s2 = push_if(s1, ((x + 2) as u32, y as u32), closed_at(g, w, h, x + 2, y as int));
        assert(n@ == s2);
        if height >= 2 && y < height - 2 && !grid[(y + 2) as usize][x as usize] {
            n.push((x, y + 2));
        }
        let ghost s3 = push_if(s2, (x as u32, (y + 2) as u32), closed_at(g, w, h, x as int, y + 2));
        assert(n@ == s3);
        if x >= 2 && !grid[y as usize][(x - 2) as usize] {
            n.push((x - 2, y));
        }
        n
    }
}

/// Every listed neighbour is a closed cell inside the grid.
proof fn lemma_closed_neighbours(g: Seq<Vec<bool>>, w: int, h: int, x: int, y: int)
    requires
        0 <= x < w <= u32::MAX,
        0 <= y < h <= u32::MAX,
    ensures
        forall|k: int| 0 <= k < closed_neighbours(g, w, h, x, y).len() ==> {
            let c = #[trigger] closed_neighbours(g, w, h, x, y)[k];
            closed_at(g, w, h, c.0 as int, c.1 as int)
        },
{
}

/// A grid of `w` x `h` closed cells.
fn closed_grid(w: u32, h: u32) -> (g: Vec<Vec<bool>>)
    ensures
        grid_shaped(g@, w as int, h as int),
        forall|x: int, y: int| !#[trigger] open_cell(g@, x, y),
{
    let mut g: Vec<Vec<bool>> = Vec::new();
    let mut y: u32 = 0;
    while y < h
        invariant
            y <= h,
            grid_shaped(g@, w as int, y as int),
            forall|a: int, b: int| !#[trigger] open_cell(g@, a, b),
        decreases h - y,
    {
        let mut row: Vec<bool> = Vec::new();
        let mut x: u32 = 0;
        while x < w
            invariant
                x <= w,
                row@.len() == x,
                forall|k: int| 0 <= k < x ==> !row@[k],
            decreases w - x,
        {
            row.push(false);
            x = x + 1;
        }
        let ghost g0 = g@;
        g.push(row);
        proof {
            assert forall|a: int, b: int| !#[trigger] open_cell(g@, a, b) by {
                if 0 <= b < g0.len() {
                    assert(g@[b] == g0[b]);
                    assert(!open_cell(g0, a, b));
                }
            }
        }
        y = y + 1;
    }
    g
}

impl MazeGenerator {
    /// Extra openings: each inner cell off the grid border draws a chance in
    /// millionths and a closed one opens when the draw is below `chance`.
    pub fn add_random_loops(grid: &mut Vec<Vec<bool>>, width: u32, height: u32, rng: &mut ChaCha8Rng, chance: u32)
        requires
            grid_shaped(old(grid)@, width as int, height as int),
            width >= 1,
            height >= 1,
        ensures
            grid_shaped(final(grid)@, width as int, height as int),
            forall|a: int, b: int| #[trigger] open_cell(old(grid)@, a, b) ==> open_cell(final(grid)@, a, b),
            forall|a: int, b: int| !(1 <= a < width - 1 && 1 <= b < height - 1) ==> #[trigger] open_cell(final(grid)@, a, b)
                == open_cell(old(grid)@, a, b),
            chance == 0 ==> final(grid)@ == old(grid)@,
            chance >= 1_000_000 ==> forall|a: int, b: int| 1 <= a < width - 1 && 1 <= b < height - 1 ==> #[trigger] open_cell(
                final(grid)@,
                a,
                b,
            ),
    {
        let ghost g0 = grid@;
        let mut y: u32 = 1;
        while y < height - 1
            invariant
                grid_shaped(grid@, width as int, height as int),
                height >= 1,
                width >= 1,
                1 <= y,
                forall|a: int, b: int| #[trigger] open_cell(g0, a, b) ==> open_cell(grid@, a, b),
                forall|a: int, b: int| !(1 <= a < width - 1 && 1 <= b < height - 1) ==> #[trigger] open_cell(grid@, a, b)
                    == open_cell(g0, a, b),
                chance == 0 ==> grid@ == g0,
                chance >= 1_000_000 ==> forall|a: int, b: int| 1 <= a < width - 1 && 1 <= b < y ==> #[trigger] open_cell(
                    grid@,
                    a,
                    b,
                ),
            decreases height - y,
        {
            let mut x: u32 = 1;
            while x < width - 1
                invariant
                    grid_shaped(grid@, width as int, height as int),
                    height >= 1,
                    width >= 1,
                    1 <= y < height - 1,
                    1 <= x,
                    forall|a: int, b: int| #[trigger] open_cell(g0, a, b) ==> open_cell(grid@, a, b),
                    forall|a: int, b: int| !(1 <= a < width - 1 && 1 <= b < height - 1) ==> #[trigger] open_cell(
                        grid@,
                        a,
                        b,
                    ) == open_cell(g0, a, b),
                    chance == 0 ==> grid@ == g0,
                    chance >= 1_000_000 ==> forall|a: int, b: int| (1 <= a < width - 1 && 1 <= b < y) || (b == y && 1 <= a < x)
                        ==> #[trigger] open_cell(grid@, a, b),
                decreases width - x,
            {
                let r = gen_range_u32(rng, 0, 1_000_000);
                if !grid[y as usize][x as usize] && r < chance {
                    open(grid, x, y, Ghost(width as int), Ghost(height as int));
                }
                x = x + 1;
            }
            y = y + 1;
        }
    }

    /// Carve a maze on a `width` x `height` grid by recursive backtracking from
    /// a random cell; the result is the grid, with the start cell open.
    pub fn carve_grid(width: u32, height: u32, rng: &mut ChaCha8Rng) -> (r: (Vec<Vec<bool>>, (u32, u32)))
        requires
            width >= 1,
            height >= 1,
        ensures
            grid_shaped(r.0@, width as int, height as int),
            r.1.0 < width && r.1.1 < height,
            open_cell(r.0@, r.1.0 as int, r.1.1 as int),
    {
        let mut grid = closed_grid(width, height);
        let start_x = gen_range_u32(rng, 0, width);
        let start_y = gen_range_u32(rng, 0, height);
        open(&mut grid, start_x, start_y, Ghost(width as int), Ghost(height as int));
        let mut stack: Vec<(u32, u32)> = Vec::new();
        stack.push((start_x, start_y));
        while stack.len() > 0
            invariant
                grid_shaped(grid@, width as int, height as int),
                start_x < width && start_y < height,
                open_cell(grid@, start_x as int, start_y as int),
                forall|k: int| 0 <= k < stack@.len() ==> (#[trigger] stack@[k]).0 < width && stack@[k].1 < height,
            decreases 2 * count_unvisited(grid@) + stack@.len(),
        {
            let (x, y) = stack.pop().unwrap();
            let neighbors = Self::get_unvisited_neighbors(x, y, &grid, width, height);
            proof {
                lemma_closed_neighbours(grid@, width as int, height as int, x as int, y as int);
            }
            if neighbors.len() > 0 {
                stack.push((x, y));
                let k = gen_range_usize(rng, 0, neighbors.len());
                let (nx, ny) = neighbors[k];
                assert(closed_at(grid@, width as int, height as int, nx as int, ny as int));
                let ghost c0 = count_unvisited(grid@);
                open(&mut grid, nx, ny, Ghost(width as int), Ghost(height as int));
                let wall_x = ((x as u64 + nx as u64) / 2) as u32;
                let wall_y = ((y as u64 + ny as u64) / 2) as u32;
                if wall_x < width && wall_y < height {
                    open(&mut grid, wall_x, wall_y, Ghost(width as int), Ghost(height as int));
                }
                assert(count_unvisited(grid@) + 1 <= c0);
                stack.push((nx, ny));
            }
        }
        (grid, (start_x, start_y))
    }
}

/// The tile lies in the block of grid cell `(x, y)`: `cs` x `cs` tiles whose
/// corner is `cs` tiles per cell from the corner of the bounds.
pub open spec fn in_block(tx: int, ty: int, b: Rectangle, cs: int, x: int, y: int) -> bool {
    b.x + x * cs <= tx < b.x + x * cs + cs && b.y + y * cs <= ty < b.y + y * cs + cs
}

/// The tile lies inside the bounds and in the block of an open cell.
pub open spec fn covered(g: Seq<Vec<bool>>, b: Rectangle, cs: int, tx: int, ty: int) -> bool {
    b.holds(tx, ty) && exists|x: int, y: int| #[trigger] open_cell(g, x, y) && in_block(tx, ty, b, cs, x, y)
}

/// A cell's block fits in the bounds' far edges.
proof fn lemma_block_fits(i: int, cs: int, extent: int)
    requires
        cs > 0,
        extent >= 0,
        0 <= i < extent / cs,
    ensures
        0 <= i * cs,
        i * cs + cs <= extent,
{
    assert(i * cs + cs <= extent) by (nonlinear_arith)
        requires
            cs > 0,
            extent >= 0,
            0 <= i < extent / cs,
    ;
    assert(0 <= i * cs) by (nonlinear_arith)
        requires
            cs > 0,
            0 <= i,
    ;
}

/// Append the tiles of one block that lie inside the bounds.
fn push_block(out: &mut Vec<(u32, u32)>, b: Rectangle, cs: u32, x: u32, y: u32)
    requires
        b.fits(),
        cs > 0,
        x < b.width / cs,
        y < b.height / cs,
    ensures
        forall|t: (u32, u32)| #![trigger final(out)@.contains(t)] final(out)@.contains(t) <==> (old(out)@.contains(t) || (b.holds(t.0 as int, t.1 as int)
            && in_block(t.0 as int, t.1 as int, b, cs as int, x as int, y as int))),
{
    proof {
        lemma_block_fits(x as int, cs as int, b.width as int);
        lemma_block_fits(y as int, cs as int, b.height as int);
    }
    let wx = b.x + x * cs;
    let wy = b.y + y * cs;
    let ghost o0 = out@;
    let mut dy: u32 = 0;
    while dy < cs
        invariant
            b.fits(),
            wx as int == b.x + x * cs,
            wy as int == b.y + y * cs,
            x * cs + cs <= b.width,
            y * cs + cs <= b.height,
            0 <= x * cs,
            0 <= y * cs,
            dy <= cs,
            forall|t: (u32, u32)| #![trigger out@.contains(t)] out@.contains(t) <==> (o0.contains(t) || (b.holds(t.0 as int, t.1 as int) && wx <= t.0
                < wx + cs && wy <= t.1 < wy + dy)),
        decreases cs - dy,
    {
        let mut dx: u32 = 0;
        while dx < cs
            invariant
                b.fits(),
                wx as int == b.x + x * cs,
                wy as int == b.y + y * cs,
                x * cs + cs <= b.width,
                y * cs + cs <= b.height,
                0 <= x * cs,
                0 <= y * cs,
                dy < cs,
                dx <= cs,
                forall|t: (u32, u32)| #![trigger out@.contains(t)] out@.contains(t) <==> (o0.contains(t) || (b.holds(t.0 as int, t.1 as int) && ((
                wx <= t.0 < wx + cs && wy <= t.1 < wy + dy) || (wx <= t.0 < wx + dx && t.1 == wy + dy)))),
            decreases cs - dx,
        {
            if wx + dx < b.x + b.width && wy + dy < b.y + b.height {
                let ghost before = out@;
                let p = (wx + dx, wy + dy);
                out.push(p);
                proof {
                    assert forall|t: (u32, u32)| #![trigger out@.contains(t)] out@.contains(t) <==> (before.contains(t) || t == p) by {
                        if t == p {
                            assert(out@[before.len() as int] == t);
                        }
                        if out@.contains(t) && t != p {
                            let k = choose|k: int| 0 <= k < out@.len() && out@[k] == t;
                            assert(k < before.len());
                            assert(before[k] == t);
                        }
                        if before.contains(t) {
                            let k = choose|k: int| 0 <= k < before.len() && before[k] == t;
                            assert(out@[k] == t);
                        }
                    }
                }
            }
            dx = dx + 1;
        }
        dy = dy + 1;
    }
}

impl MazeGenerator {
    /// The tiles of every open cell's block that lie inside the bounds, row by
    /// row of cells.
    pub fn grid_to_world_coords(grid: &Vec<Vec<bool>>, bounds: Rectangle, cell_size: u32) -> (tiles: Vec<(u32, u32)>)
        requires
            bounds.fits(),
            cell_size > 0,
            grid_shaped(grid@, (bounds.width / cell_size) as int, (bounds.height / cell_size) as int),
        ensures
            forall|t: (u32, u32)| #![trigger tiles@.contains(t)] tiles@.contains(t) <==> covered(grid@, bounds, cell_size as int, t.0 as int, t.1 as int),
    {
        let w = bounds.width / cell_size;
        let h = bounds.height / cell_size;
        let ghost g = grid@;
        let ghost cs = cell_size as int;
        let mut tiles: Vec<(u32, u32)> = Vec::new();
        let mut y: u32 = 0;
        while y < h
            invariant
                bounds.fits(),
                cell_size > 0,
                w == bounds.width / cell_size,
                h == bounds.height / cell_size,
                g == grid@,
                cs == cell_size as int,
                grid_shaped(g, w as int, h as int),
                y <= h,
                forall|t: (u32, u32)| #![trigger tiles@.contains(t)] tiles@.contains(t) <==> (bounds.holds(t.0 as int, t.1 as int) && exists|a: int, b: int|
                    #[trigger] open_cell(g, a, b) && b < y && in_block(t.0 as int, t.1 as int, bounds, cs, a, b)),
            decreases h - y,
        {
            let mut x: u32 = 0;
            while x < w
                invariant
                    bounds.fits(),
                    cell_size > 0,
                    w == bounds.width / cell_size,
                    h == bounds.height / cell_size,
                    g == grid@,
                    cs == cell_size as int,
                    grid_shaped(g, w as int, h as int),
                    y < h,
                    x <= w,
                    forall|t: (u32, u32)| #![trigger tiles@.contains(t)] tiles@.contains(t) <==> (bounds.holds(t.0 as int, t.1 as int) && exists|
                        a: int,
                        b: int,
                    |
                        #[trigger] open_cell(g, a, b) && (b < y || (b == y && a < x)) && in_block(
                            t.0 as int,
                            t.1 as int,
                            bounds,
                            cs,
                            a,
                            b,
                        )),
                decreases w - x,
            {
                if grid[y as usize][x as usize] {
                    let ghost before = tiles@;
                    push_block(&mut tiles, bounds, cell_size, x, y);
                    proof {
                        assert(open_cell(g, x as int, y as int));
                        assert forall|t: (u32, u32)| #![trigger tiles@.contains(t)] tiles@.contains(t) <==> (bounds.holds(t.0 as int, t.1 as int) && exists|
                            a: int,
                            b: int,
                        |
                            #[trigger] open_cell(g, a, b) && (b < y || (b == y && a < x + 1)) && in_block(
                                t.0 as int,
                                t.1 as int,
                                bounds,
                                cs,
                                a,
                                b,
                            )) by {
                            if tiles@.contains(t) && !before.contains(t) {
                                assert(open_cell(g, x as int, y as int) && in_block(
                                    t.0 as int,
                                    t.1 as int,
                                    bounds,
                                    cs,
                                    x as int,
                                    y as int,
                                ));
                            }
                        }
                    }
                } else {
                    proof {
                        assert forall|t: (u32, u32)| #![trigger tiles@.contains(t)] tiles@.contains(t) <==> (bounds.holds(t.0 as int, t.1 as int) && exists|
                            a: int,
                            b: int,
                        |
                            #[trigger] open_cell(g, a, b) && (b < y || (b == y && a < x + 1)) && in_block(
                                t.0 as int,
                                t.1 as int,
                                bounds,
                                cs,
                                a,
                                b,
                            )) by {
                            assert(!open_cell(g, x as int, y as int));
                        }
                    }
                }
                x = x + 1;
            }
            proof {
                assert forall|t: (u32, u32)| #![trigger tiles@.contains(t)] tiles@.contains(t) <==> (bounds.holds(t.0 as int, t.1 as int) && exists|
                    a: int,
                    b: int,
                | #[trigger] open_cell(g, a, b) && b < y + 1 && in_block(t.0 as int, t.1 as int, bounds, cs, a, b)) by {
                    if bounds.holds(t.0 as int, t.1 as int) && exists|a: int, b: int|
                        #[trigger] open_cell(g, a, b) && b < y + 1 && in_block(t.0 as int, t.1 as int, bounds, cs, a, b) {
                        let (a, b) = choose|a: int, b: int|
                            #[trigger] open_cell(g, a, b) && b < y + 1 && in_block(t.0 as int, t.1 as int, bounds, cs, a, b);
                        assert(a < w);
                    }
                }
            }
            y = y + 1;
        }
        proof {
            assert forall|t: (u32, u32)| #![trigger tiles@.contains(t)] tiles@.contains(t) <==> covered(g, bounds, cs, t.0 as int, t.1 as int) by {
                if covered(g, bounds, cs, t.0 as int, t.1 as int) {
                    let (a, b) = choose|a: int, b: int| #[trigger] open_cell(g, a, b) && in_block(
                        t.0 as int,
                        t.1 as int,
                        bounds,
                        cs,
                        a,
                        b,
                    );
                    assert(b < h);
                }
            }
        }
        tiles
    }

    /// A maze inside the bounds: the tiles of the open cells' blocks. All three
    /// strategies carve by recursive backtracking; loops are then added when
    /// configured.
    pub fn generate(&self, bounds: Rectangle, rng: &mut ChaCha8Rng) -> (tiles: Vec<(u32, u32)>)
        requires
            bounds.fits(),
            self.params.cell_size > 0,
            bounds.width / self.params.cell_size >= 1,
            bounds.height / self.params.cell_size >= 1,
        ensures
            tiles@.len() > 0,
            forall|k: int| 0 <= k < tiles@.len() ==> bounds.holds((#[trigger] tiles@[k]).0 as int, tiles@[k].1 as int),
    {
        let cs = self.params.cell_size;
        let w = bounds.width / cs;
        let h = bounds.height / cs;
        let (mut grid, start) = Self::carve_grid(w, h, rng);
        if self.params.add_loops {
            Self::add_random_loops(&mut grid, w, h, rng, self.params.loop_chance);
        }
        let tiles = Self::grid_to_world_coords(&grid, bounds, cs);
        proof {
            lemma_block_fits(start.0 as int, cs as int, bounds.width as int);
            lemma_block_fits(start.1 as int, cs as int, bounds.height as int);
            let corner = ((bounds.x + start.0 * cs) as u32, (bounds.y + start.1 * cs) as u32);
            assert(open_cell(grid@, start.0 as int, start.1 as int));
            assert(in_block(corner.0 as int, corner.1 as int, bounds, cs as int, start.0 as int, start.1 as int));
            assert(covered(grid@, bounds, cs as int, corner.0 as int, corner.1 as int));
            assert(tiles@.contains(corner));
            assert forall|k: int| 0 <= k < tiles@.len() implies bounds.holds((#[trigger] tiles@[k]).0 as int, tiles@[k].1 as int) by {
                assert(tiles@.contains(tiles@[k]));
            }
        }
        tiles
    }
}

} // verus!
