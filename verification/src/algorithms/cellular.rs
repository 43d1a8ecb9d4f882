//! Cellular automata: a random field of walls smoothed by survival and birth
//! rules into organic caves.

use vstd::prelude::*;
use rand_chacha::ChaCha8Rng;
use crate::structures::Rectangle;
use crate::rng::gen_range_u32;
use crate::layered::CHANCE_SCALE;

verus! {

/// Parameters of the automaton. The initial wall probability is kept as
/// millionths.
#[derive(Debug, Clone, Copy)]
pub struct CellularAutomataParams {
    pub initial_wall_probability: u32,
    pub iterations: u32,
    pub survival_threshold: u8,
    pub birth_threshold: u8,
    pub use_moore_neighborhood: bool,
}

impl Default for CellularAutomataParams {
    fn default() -> (p: Self)
        ensures
            p.initial_wall_probability == 450_000,
            p.iterations == 5,
            p.survival_threshold == 4,
            p.birth_threshold == 5,
            p.use_moore_neighborhood,
    {
        CellularAutomataParams {
            initial_wall_probability: 450_000,
            iterations: 5,
            survival_threshold: 4,
            birth_threshold: 5,
            use_moore_neighborhood: true,
        }
    }
}

/// The automaton with its parameters.
#[derive(Debug)]
pub struct CellularAutomataAlgorithm {
    pub params: CellularAutomataParams,
}

/// The rows of a grid as sequences.
pub open spec fn cells(g: Seq<Vec<bool>>) -> Seq<Seq<bool>> {
    g.map_values(|r: Vec<bool>| r@)
}

/// Every row is as long as the first.
pub open spec fn rectangular(g: Seq<Seq<bool>>) -> bool {
    forall|y: int| 0 <= y < g.len() ==> #[trigger] g[y].len() == g[0].len()
}

/// A cell is alive when it holds a wall. A cell beyond the grid counts as a
/// wall when it lies straight above, below or beside the cell being counted
/// for (`straight`), and as open when it lies diagonally. The grid is as wide
/// as its first row.
pub open spec fn alive_at(g: Seq<Seq<bool>>, x: int, y: int, straight: bool) -> bool {
    if 0 <= y < g.len() && 0 <= x < g[0].len() {
        g[y][x]
    } else {
        straight
    }
}

/// One for a living cell, zero otherwise.
pub open spec fn count_of(v: bool) -> int {
    if v { 1 } else { 0 }
}

/// Living cells among the eight around `(x, y)` (Moore) or the four beside
/// it (von Neumann).
pub open spec fn neighbors(g: Seq<Seq<bool>>, x: int, y: int, moore: bool) -> int {
    if moore {
        count_of(alive_at(g, x - 1, y - 1, false)) + count_of(alive_at(g, x, y - 1, true))
            + count_of(alive_at(g, x + 1, y - 1, false)) + count_of(alive_at(g, x - 1, y, true))
            + count_of(alive_at(g, x + 1, y, true)) + count_of(alive_at(g, x - 1, y + 1, false))
            + count_of(alive_at(g, x, y + 1, true)) + count_of(alive_at(g, x + 1, y + 1, false))
    } else {
        count_of(alive_at(g, x, y - 1, true)) + count_of(alive_at(g, x - 1, y, true))
            + count_of(alive_at(g, x + 1, y, true)) + count_of(alive_at(g, x, y + 1, true))
    }
}

/// A living cell survives with at least the survival threshold of living
/// neighbours; a dead one is born with at least the birth threshold.
pub open spec fn next_cell(g: Seq<Seq<bool>>, x: int, y: int, p: CellularAutomataParams) -> bool {
    let n = neighbors(g, x, y, p.use_moore_neighborhood);
    if g[y][x] {
        n >= p.survival_threshold
    } else {
        n >= p.birth_threshold
    }
}

/// One generation of the automaton over the whole grid.
pub open spec fn step(g: Seq<Seq<bool>>, p: CellularAutomataParams) -> Seq<Seq<bool>> {
    Seq::new(g.len(), |y: int| Seq::new(g[0].len(), |x: int| next_cell(g, x, y, p)))
}

/// The grid after `k` generations.
pub open spec fn evolve(g: Seq<Seq<bool>>, p: CellularAutomataParams, k: nat) -> Seq<Seq<bool>>
    decreases k,
{
    if k == 0 {
        g
    } else {
        step(evolve(g, p, (k - 1) as nat), p)
    }
}

/// Every cell of the rectangular grid holds `v`.
pub open spec fn uniform(g: Seq<Seq<bool>>, v: bool) -> bool {
    &&& g.len() > 0
    &&& rectangular(g)
    &&& forall|y: int, x: int| 0 <= y < g.len() && 0 <= x < g[0].len() ==> #[trigger] g[y][x] == v
}

/// One generation applies the rules to every cell: a wall stays a wall with
/// at least the survival threshold of walls around it and opens otherwise;
/// an open cell becomes a wall with at least the birth threshold of walls
/// around it and stays open otherwise. The grid keeps its shape.
pub proof fn law_step_rules(g: Seq<Seq<bool>>, p: CellularAutomataParams, x: int, y: int)
    requires
        g.len() > 0,
        rectangular(g),
        0 <= y < g.len(),
        0 <= x < g[0].len(),
    ensures
        step(g, p).len() == g.len(),
        step(g, p)[y].len() == g[0].len(),
        g[y][x] ==> (step(g, p)[y][x] <==> neighbors(g, x, y, p.use_moore_neighborhood) >= p.survival_threshold),
        !g[y][x] ==> (step(g, p)[y][x] <==> neighbors(g, x, y, p.use_moore_neighborhood) >= p.birth_threshold),
{
}

/// A cell has at most eight living neighbours (four without diagonals), and
/// never fewer than none.
pub proof fn law_neighbors_bounded(g: Seq<Seq<bool>>, x: int, y: int, moore: bool)
    ensures
        0 <= neighbors(g, x, y, moore) <= (if moore { 8int } else { 4int }),
{
}

/// Turning open cells into walls never lowers a neighbour count.
pub proof fn law_neighbors_monotone(g: Seq<Seq<bool>>, h: Seq<Seq<bool>>, x: int, y: int, moore: bool)
    requires
        g.len() == h.len(),
        g.len() > 0 ==> g[0].len() == h[0].len(),
        forall|j: int, i: int| 0 <= j < g.len() && 0 <= i < g[0].len() && #[trigger] g[j][i] ==> h[j][i],
    ensures
        neighbors(g, x, y, moore) <= neighbors(h, x, y, moore),
{
    assert forall|i: int, j: int, st: bool| alive_at(g, i, j, st) implies #[trigger] alive_at(h, i, j, st) by {
        if 0 <= j < g.len() && 0 <= i < g[0].len() {
            assert(g[j][i]);
        }
    }
}

/// In a grid of open cells, a cell's count is the number of its sides that
/// face off the grid: cells beyond the edge straight above, below or beside
/// it count as walls, diagonal ones do not.
pub proof fn law_open_grid_counts_edges(g: Seq<Seq<bool>>, x: int, y: int, moore: bool)
    requires
        uniform(g, false),
        0 <= y < g.len(),
        0 <= x < g[0].len(),
    ensures
        neighbors(g, x, y, moore) == count_of(x == 0) + count_of(x == g[0].len() - 1) + count_of(y == 0) + count_of(
            y == g.len() - 1,
        ),
{
    assert forall|i: int, j: int, st: bool| 0 <= j < g.len() && 0 <= i < g[0].len() implies !#[trigger] alive_at(g, i, j, st) by {
        assert(g[j][i] == false);
    }
}

/// Away from the edges, a cell in a grid of walls has eight wall neighbours
/// (four without diagonals).
pub proof fn law_wall_grid_interior(g: Seq<Seq<bool>>, x: int, y: int, moore: bool)
    requires
        uniform(g, true),
        1 <= y < g.len() - 1,
        1 <= x < g[0].len() - 1,
    ensures
        neighbors(g, x, y, moore) == (if moore { 8int } else { 4int }),
{
    assert forall|i: int, j: int, st: bool| 0 <= j < g.len() && 0 <= i < g[0].len() implies #[trigger] alive_at(g, i, j, st) by {
        assert(g[j][i]);
    }
}

/// The grid has `h` rows of `w` cells.
pub open spec fn shaped(g: Seq<Seq<bool>>, w: int, h: int) -> bool {
    g.len() == h && forall|y: int| 0 <= y < h ==> #[trigger] g[y].len() == w
}

/// The walls of one row, left to right, as positions offset by `(bx, by)`.
pub open spec fn row_walls(row: Seq<bool>, bx: int, by: int, y: int) -> Seq<(i32, i32)>
    decreases row.len(),
{
    if row.len() == 0 {
        Seq::empty()
    } else {
        let x = row.len() - 1;
        let before = row_walls(row.drop_last(), bx, by, y);
        if row[x] {
            before.push(((bx + x) as i32, (by + y) as i32))
        } else {
            before
        }
    }
}

/// The walls of a grid, row by row, as positions offset by `(bx, by)`.
pub open spec fn grid_walls(g: Seq<Seq<bool>>, bx: int, by: int) -> Seq<(i32, i32)>
    decreases g.len(),
{
    if g.len() == 0 {
        Seq::empty()
    } else {
        grid_walls(g.drop_last(), bx, by) + row_walls(g.last(), bx, by, g.len() - 1)
    }
}

/// Generations keep a grid's shape.
pub proof fn lemma_evolve_shape(g: Seq<Seq<bool>>, p: CellularAutomataParams, k: nat, w: int, h: int)
    requires
        shaped(g, w, h),
        h > 0 || k == 0,
    ensures
        shaped(evolve(g, p, k), w, h),
    decreases k,
{
    if k > 0 {
        lemma_evolve_shape(g, p, (k - 1) as nat, w, h);
    }
}

/// Every position listed for a row lies in the row's stretch.
proof fn lemma_row_walls_bounds(row: Seq<bool>, bx: int, by: int, y: int)
    requires
        0 <= bx,
        bx + row.len() <= i32::MAX,
        0 <= by + y <= i32::MAX,
    ensures
        row_walls(row, bx, by, y).len() <= row.len(),
        forall|i: int| 0 <= i < row_walls(row, bx, by, y).len() ==> {
            let q = #[trigger] row_walls(row, bx, by, y)[i];
            bx <= q.0 < bx + row.len() && q.1 == by + y
        },
    decreases row.len(),
{
    if row.len() > 0 {
        lemma_row_walls_bounds(row.drop_last(), bx, by, y);
    }
}

impl CellularAutomataAlgorithm {
    pub fn new(params: CellularAutomataParams) -> (a: Self)
        ensures
            a.params == params,
    {
        Self { params }
    }

    /// Living neighbours of a cell; cells beyond the grid straight above,
    /// below or beside it count as walls, diagonal ones do not.
    pub fn count_neighbors(&self, grid: &Vec<Vec<bool>>, x: usize, y: usize) -> (n: u8)
        requires
            grid@.len() > 0,
            rectangular(cells(grid@)),
            grid@.len() <= i32::MAX,
            grid@[0]@.len() <= i32::MAX,
            x < grid@[0]@.len(),
            y < grid@.len(),
        ensures
            n as int == neighbors(cells(grid@), x as int, y as int, self.params.use_moore_neighborhood),
    {
        let ghost g = cells(grid@);
        let height = grid.len() as i32;
        let width = grid[0].len() as i32;
        let xi = x as i32;
        let yi = y as i32;
        let mut count: u8 = 0;
        let offsets: Vec<(i32, i32)> = if self.params.use_moore_neighborhood {
            vec![(-1, -1), (0, -1), (1, -1), (-1, 0), (1, 0), (-1, 1), (0, 1), (1, 1)]
        } else {
            vec![(0, -1), (-1, 0), (1, 0), (0, 1)]
        };
        let mut k: usize = 0;
        while k < offsets.len()
            invariant
                g == cells(grid@),
                grid@.len() > 0,
                rectangular(g),
                height == grid@.len(),
                width == grid@[0]@.len(),
                0 <= xi < width,
                0 <= yi < height,
                xi == x,
                yi == y,
                k <= offsets@.len(),
                offsets@.len() <= 8,
                forall|j: int| 0 <= j < offsets@.len() ==> -1 <= (#[trigger] offsets@[j]).0 <= 1 && -1 <= offsets@[j].1 <= 1,
                count <= k,
                count == ({
                    let t = offsets@.take(k as int);
                    sum_alive(g, xi as int, yi as int, t)
                }),
            decreases offsets@.len() - k,
        {
            let (dx, dy) = offsets[k];
            let nx = xi + dx;
            let ny = yi + dy;
            proof {
                assert(offsets@.take(k + 1).drop_last() == offsets@.take(k as int));
            }
            if nx >= 0 && nx < width && ny >= 0 && ny < height {
                proof {
                    assert(g[ny as int] == grid@[ny as int]@);
                    assert(g[0] == grid@[0]@);
                }
                if grid[ny as usize][nx as usize] {
                    count = count + 1;
                }
            } else if dx == 0 || dy == 0 {
                count = count + 1;
            }
            k = k + 1;
        }
        proof {
            assert(offsets@.take(offsets@.len() as int) == offsets@);
            if self.params.use_moore_neighborhood {
                reveal_with_fuel(sum_alive, 9);
            } else {
                reveal_with_fuel(sum_alive, 5);
            }
        }
        count
    }

    /// One generation of the automaton.
    pub fn iterate_generation(&self, grid: &Vec<Vec<bool>>) -> (next: Vec<Vec<bool>>)
        requires
            grid@.len() > 0,
            rectangular(cells(grid@)),
            grid@.len() <= i32::MAX,
            grid@[0]@.len() <= i32::MAX,
        ensures
            cells(next@) == step(cells(grid@), self.params),
    {
        let ghost g = cells(grid@);
        let height = grid.len();
        let width = grid[0].len();
        let mut next: Vec<Vec<bool>> = Vec::new();
        let mut y: usize = 0;
        while y < height
            invariant
                g == cells(grid@),
                grid@.len() > 0,
                rectangular(g),
                height == grid@.len(),
                width == grid@[0]@.len(),
                height <= i32::MAX,
                width <= i32::MAX,
                y <= height,
                next@.len() == y,
                forall|r: int| 0 <= r < y ==> #[trigger] cells(next@)[r] == step(g, self.params)[r],
            decreases height - y,
        {
            let mut row: Vec<bool> = Vec::new();
            let mut x: usize = 0;
            while x < width
                invariant
                    g == cells(grid@),
                    grid@.len() > 0,
                    rectangular(g),
                    height == grid@.len(),
                    width == grid@[0]@.len(),
                    height <= i32::MAX,
                    width <= i32::MAX,
                    y < height,
                    x <= width,
                    row@.len() == x,
                    forall|c: int| 0 <= c < x ==> row@[c] == #[trigger] next_cell(g, c, y as int, self.params),
                decreases width - x,
            {
                let n = self.count_neighbors(grid, x, y);
                proof {
                    assert(g[y as int] == grid@[y as int]@);
                    assert(g[y as int].len() == g[0].len());
                }
                let alive = grid[y][x];
                let v = if alive {
                    n >= self.params.survival_threshold
                } else {
                    n >= self.params.birth_threshold
                };
                row.push(v);
                x = x + 1;
            }
            proof {
                assert(row@ == step(g, self.params)[y as int]);
            }
            let ghost before = next@;
            next.push(row);
            proof {
                assert forall|r: int| 0 <= r < y + 1 implies #[trigger] cells(next@)[r] == step(g, self.params)[r] by {
                    assert(cells(next@)[r] == next@[r]@);
                    if r < y {
                        assert(next@[r] == before[r]);
                        assert(cells(before)[r] == before[r]@);
                    }
                }
            }
            y = y + 1;
        }
        proof {
            assert(cells(next@) =~= step(g, self.params));
        }
        next
    }

    /// A random field of `w` x `h` cells, each a wall with the initial wall
    /// probability: none when it is zero, all when it is one or more.
    fn random_grid(&self, w: usize, h: usize, rng: &mut ChaCha8Rng) -> (grid: Vec<Vec<bool>>)
        ensures
            shaped(cells(grid@), w as int, h as int),
            self.params.initial_wall_probability == 0 ==> forall|y: int, x: int|
                0 <= y < h && 0 <= x < w ==> !#[trigger] cells(grid@)[y][x],
            self.params.initial_wall_probability >= CHANCE_SCALE ==> forall|y: int, x: int|
                0 <= y < h && 0 <= x < w ==> #[trigger] cells(grid@)[y][x],
    {
        let p = self.params.initial_wall_probability;
        let mut grid: Vec<Vec<bool>> = Vec::new();
        let mut y: usize = 0;
        while y < h
            invariant
                y <= h,
                p == self.params.initial_wall_probability,
                shaped(cells(grid@), w as int, y as int),
                p == 0 ==> forall|r: int, x: int| 0 <= r < y && 0 <= x < w ==> !#[trigger] cells(grid@)[r][x],
                p >= CHANCE_SCALE ==> forall|r: int, x: int| 0 <= r < y && 0 <= x < w ==> #[trigger] cells(grid@)[r][x],
            decreases h - y,
        {
            let mut row: Vec<bool> = Vec::new();
            let mut x: usize = 0;
            while x < w
                invariant
                    x <= w,
                    row@.len() == x,
                    p == self.params.initial_wall_probability,
                    p == 0 ==> forall|c: int| 0 <= c < x ==> !#[trigger] row@[c],
                    p >= CHANCE_SCALE ==> forall|c: int| 0 <= c < x ==> #[trigger] row@[c],
                decreases w - x,
            {
                let roll = gen_range_u32(rng, 0, CHANCE_SCALE);
                row.push(roll < p);
                x = x + 1;
            }
            let ghost before = grid@;
            grid.push(row);
            proof {
                assert forall|r: int| 0 <= r < y + 1 implies #[trigger] cells(grid@)[r] == (if r < y {
                    cells(before)[r]
                } else {
                    row@
                }) by {}
            }
            y = y + 1;
        }
        grid
    }

    /// Organic walls inside the bounds: a random field smoothed for the
    /// configured number of generations, listed row by row. The field itself
    /// is drawn from the random source; whatever it is, the walls are exactly
    /// those of the grid it evolves into.
    pub fn generate(&self, bounds: Rectangle, rng: &mut ChaCha8Rng) -> (walls: Vec<(i32, i32)>)
        requires
            bounds.x + bounds.width <= i32::MAX,
            bounds.y + bounds.height <= i32::MAX,
            bounds.height > 0 || self.params.iterations == 0,
        ensures
            exists|g0: Seq<Seq<bool>>| {
                &&& shaped(g0, bounds.width as int, bounds.height as int)
                &&& (self.params.initial_wall_probability == 0 ==> forall|y: int, x: int|
                    0 <= y < bounds.height && 0 <= x < bounds.width ==> !#[trigger] g0[y][x])
                &&& (self.params.initial_wall_probability >= CHANCE_SCALE ==> forall|y: int, x: int|
                    0 <= y < bounds.height && 0 <= x < bounds.width ==> #[trigger] g0[y][x])
                &&& walls@ == grid_walls(evolve(g0, self.params, self.params.iterations as nat), bounds.x as int, bounds.y as int)
            },
            forall|i: int| 0 <= i < walls@.len() ==> bounds.holds((#[trigger] walls@[i]).0 as int, walls@[i].1 as int),
    {
        let width = bounds.width as usize;
        let height = bounds.height as usize;
        let mut grid = self.random_grid(width, height, rng);
        let ghost g0 = cells(grid@);
        let mut it: u32 = 0;
        while it < self.params.iterations
            invariant
                it <= self.params.iterations,
                height == bounds.height,
                width == bounds.width,
                height <= i32::MAX,
                width <= i32::MAX,
                height > 0 || self.params.iterations == 0,
                shaped(g0, width as int, height as int),
                cells(grid@) == evolve(g0, self.params, it as nat),
            decreases self.params.iterations - it,
        {
            proof {
                lemma_evolve_shape(g0, self.params, it as nat, width as int, height as int);
                assert(cells(grid@)[0] == grid@[0]@);
            }
            grid = self.iterate_generation(&grid);
            it = it + 1;
        }
        proof {
            lemma_evolve_shape(g0, self.params, it as nat, width as int, height as int);
        }
        proof {
            assert forall|y: int| 0 <= y < grid@.len() implies #[trigger] grid@[y]@.len() == width by {
                assert(cells(grid@)[y] == grid@[y]@);
            }
        }
        let walls = wall_positions(&grid, bounds.x, bounds.y, width);
        proof {
            let gf = evolve(g0, self.params, self.params.iterations as nat);
            lemma_grid_walls_bounds(gf, bounds.x as int, bounds.y as int, width as int);
        }
        walls
    }
}

/// Living cells at the listed offsets from `(x, y)`.
pub open spec fn sum_alive(g: Seq<Seq<bool>>, x: int, y: int, offs: Seq<(i32, i32)>) -> int
    decreases offs.len(),
{
    if offs.len() == 0 {
        0
    } else {
        sum_alive(g, x, y, offs.drop_last()) + count_of(
            alive_at(g, x + offs.last().0, y + offs.last().1, offs.last().0 == 0 || offs.last().1 == 0),
        )
    }
}

/// Every listed wall of a grid lies inside the grid's stretch.
proof fn lemma_grid_walls_bounds(g: Seq<Seq<bool>>, bx: int, by: int, w: int)
    requires
        forall|y: int| 0 <= y < g.len() ==> #[trigger] g[y].len() == w,
        0 <= bx,
        0 <= by,
        bx + w <= i32::MAX,
        by + g.len() <= i32::MAX,
    ensures
        forall|i: int| 0 <= i < grid_walls(g, bx, by).len() ==> {
            let q = #[trigger] grid_walls(g, bx, by)[i];
            bx <= q.0 < bx + w && by <= q.1 < by + g.len()
        },
    decreases g.len(),
{
    if g.len() > 0 {
        let gd = g.drop_last();
        assert forall|y: int| 0 <= y < gd.len() implies #[trigger] gd[y].len() == w by {
            assert(gd[y] == g[y]);
        }
        lemma_grid_walls_bounds(gd, bx, by, w);
        let last = g.last();
        assert(last.len() == w);
        lemma_row_walls_bounds(last, bx, by, g.len() - 1);
        let a = grid_walls(gd, bx, by);
        let b = row_walls(last, bx, by, g.len() - 1);
        assert forall|i: int| 0 <= i < grid_walls(g, bx, by).len() implies {
            let q = #[trigger] grid_walls(g, bx, by)[i];
            bx <= q.0 < bx + w && by <= q.1 < by + g.len()
        } by {
            if i < a.len() {
                assert(grid_walls(g, bx, by)[i] == a[i]);
            } else {
                assert(grid_walls(g, bx, by)[i] == b[i - a.len()]);
            }
        }
    }
}

/// The wall cells of a grid `w` wide, row by row, offset by `(bx, by)`.
fn wall_positions(grid: &Vec<Vec<bool>>, bx: u32, by: u32, w: usize) -> (walls: Vec<(i32, i32)>)
    requires
        forall|y: int| 0 <= y < grid@.len() ==> #[trigger] grid@[y]@.len() == w,
        bx + w <= i32::MAX,
        by + grid@.len() <= i32::MAX,
    ensures
        walls@ == grid_walls(cells(grid@), bx as int, by as int),
{
    let ghost g = cells(grid@);
    let mut walls: Vec<(i32, i32)> = Vec::new();
    let mut y: usize = 0;
    while y < grid.len()
        invariant
            g == cells(grid@),
            forall|r: int| 0 <= r < grid@.len() ==> #[trigger] grid@[r]@.len() == w,
            bx + w <= i32::MAX,
            by + grid@.len() <= i32::MAX,
            y <= grid@.len(),
            walls@ == grid_walls(g.take(y as int), bx as int, by as int),
        decreases grid@.len() - y,
    {
        let ghost start = walls@;
        let mut x: usize = 0;
        while x < w
            invariant
                g == cells(grid@),
                forall|r: int| 0 <= r < grid@.len() ==> #[trigger] grid@[r]@.len() == w,
                bx + w <= i32::MAX,
                by + grid@.len() <= i32::MAX,
                y < grid@.len(),
                x <= w,
                walls@ == start + row_walls(g[y as int].take(x as int), bx as int, by as int, y as int),
            decreases w - x,
        {
            proof {
                assert(g[y as int] == grid@[y as int]@);
                assert(g[y as int].take(x + 1).drop_last() == g[y as int].take(x as int));
            }
            if grid[y][x] {
                walls.push(((bx as usize + x) as i32, (by as usize + y) as i32));
            }
            proof {
                assert(walls@ == start + row_walls(g[y as int].take(x + 1), bx as int, by as int, y as int));
            }
            x = x + 1;
        }
        proof {
            assert(g[y as int] == grid@[y as int]@);
            assert(g[y as int].take(w as int) == g[y as int]);
            assert(g.take(y + 1).drop_last() == g.take(y as int));
            assert(g.take(y + 1).last() == g[y as int]);
        }
        y = y + 1;
    }
    proof {
        assert(g.take(grid@.len() as int) == g);
    }
    walls
}

} // verus!
