//! Percolation: a random field of floors smoothed by neighbour counts into a
//! network of caves, closed by a wall around the map's edge.

use vstd::prelude::*;
use rand_chacha::ChaCha8Rng;
use crate::map::{TileMap, MAP_WIDTH, MAP_HEIGHT, is_wall_named, floor_tile, lemma_cell_index_bounds, lemma_set_tile_frame};
use crate::layered::{CHANCE_SCALE, stone_floor};
use crate::algorithms::cellular::{cells, count_of, shaped};
use crate::rng::gen_range_u32;

verus! {

/// Chance of a floor (as millionths), smoothing rounds, and the floor
/// neighbours a floor needs to stay open.
#[derive(Debug, Clone, Copy)]
pub struct PercolationAlgorithm {
    pub probability: u32,
    pub iterations: usize,
    pub connectivity_threshold: usize,
}

/// The cell lies on the standard map and is a floor.
pub open spec fn open_at(g: Seq<Seq<bool>>, x: int, y: int) -> bool {
    0 <= x < MAP_WIDTH && 0 <= y < MAP_HEIGHT && g[y][x]
}

/// Floors among the eight cells around `(x, y)`.
pub open spec fn floor_neighbors(g: Seq<Seq<bool>>, x: int, y: int) -> int {
    count_of(open_at(g, x - 1, y - 1)) + count_of(open_at(g, x, y - 1)) + count_of(open_at(g, x + 1, y - 1))
        + count_of(open_at(g, x - 1, y)) + count_of(open_at(g, x + 1, y))
        + count_of(open_at(g, x - 1, y + 1)) + count_of(open_at(g, x, y + 1)) + count_of(open_at(g, x + 1, y + 1))
}

/// The cell lies off the map's edge.
pub open spec fn off_edge(x: int, y: int) -> bool {
    1 <= x < MAP_WIDTH - 1 && 1 <= y < MAP_HEIGHT - 1
}

/// One smoothing round: off the edge, a floor with fewer floor neighbours
/// than the threshold closes and a wall with six or more opens; the edge
/// stays as it is.
pub open spec fn smooth(g: Seq<Seq<bool>>, threshold: int) -> Seq<Seq<bool>> {
    Seq::new(MAP_HEIGHT as nat, |y: int| Seq::new(MAP_WIDTH as nat, |x: int|
        if off_edge(x, y) {
            if g[y][x] {
                floor_neighbors(g, x, y) >= threshold
            } else {
                floor_neighbors(g, x, y) >= 6
            }
        } else {
            g[y][x]
        }))
}

/// The field after `k` smoothing rounds.
pub open spec fn smoothed(g: Seq<Seq<bool>>, threshold: int, k: nat) -> Seq<Seq<bool>>
    decreases k,
{
    if k == 0 {
        g
    } else {
        smooth(smoothed(g, threshold, (k - 1) as nat), threshold)
    }
}

/// The standard map drawn from a field: stone floor where the field is open
/// off the edge, stone walls elsewhere.
pub open spec fn caves_of(m: TileMap, g: Seq<Seq<bool>>) -> bool {
    &&& m.wf()
    &&& m.width == MAP_WIDTH
    &&& m.height == MAP_HEIGHT
    &&& forall|x: int, y: int| #![trigger m.tile_at(x, y)] m.in_bounds_spec(x, y) ==> if off_edge(x, y) && g[y][x] {
        stone_floor(m.tile_at(x, y))
    } else {
        is_wall_named(m.tile_at(x, y), "stone"@, 100)
    }
}

/// Rounds keep the field's shape.
proof fn lemma_smoothed_shape(g: Seq<Seq<bool>>, threshold: int, k: nat)
    requires
        shaped(g, MAP_WIDTH as int, MAP_HEIGHT as int),
    ensures
        shaped(smoothed(g, threshold, k), MAP_WIDTH as int, MAP_HEIGHT as int),
    decreases k,
{
    if k > 0 {
        lemma_smoothed_shape(g, threshold, (k - 1) as nat);
    }
}

/// Whether the cell is on the standard map and a floor.
fn open_cell(grid: &Vec<Vec<bool>>, x: i32, y: i32) -> (b: bool)
    requires
        shaped(cells(grid@), MAP_WIDTH as int, MAP_HEIGHT as int),
    ensures
        b == open_at(cells(grid@), x as int, y as int),
{
    if x >= 0 && (x as usize) < MAP_WIDTH && y >= 0 && (y as usize) < MAP_HEIGHT {
        proof {
            assert(cells(grid@)[y as int] == grid@[y as int]@);
        }
        grid[y as usize][x as usize]
    } else {
        false
    }
}

impl PercolationAlgorithm {
    /// Floors at 45%, three rounds, four floor neighbours to stay open.
    pub fn new() -> (a: Self)
        ensures
            a.probability == 450_000,
            a.iterations == 3,
            a.connectivity_threshold == 4,
    {
        Self { probability: 450_000, iterations: 3, connectivity_threshold: 4 }
    }

    pub fn with_params(probability: u32, iterations: usize, connectivity_threshold: usize) -> (a: Self)
        ensures
            a == (PercolationAlgorithm { probability, iterations, connectivity_threshold }),
    {
        Self { probability, iterations, connectivity_threshold }
    }

    /// Floors among the eight cells around a cell of the standard map.
    pub fn count_floor_neighbors(&self, grid: &Vec<Vec<bool>>, x: i32, y: i32) -> (n: usize)
        requires
            shaped(cells(grid@), MAP_WIDTH as int, MAP_HEIGHT as int),
            0 <= x < MAP_WIDTH,
            0 <= y < MAP_HEIGHT,
        ensures
            n as int == floor_neighbors(cells(grid@), x as int, y as int),
    {
        let mut n: usize = 0;
        if open_cell(grid, x - 1, y - 1) { n = n + 1; }
        if open_cell(grid, x, y - 1) { n = n + 1; }
        if open_cell(grid, x + 1, y - 1) { n = n + 1; }
        if open_cell(grid, x - 1, y) { n = n + 1; }
        if open_cell(grid, x + 1, y) { n = n + 1; }
        if open_cell(grid, x - 1, y + 1) { n = n + 1; }
        if open_cell(grid, x, y + 1) { n = n + 1; }
        if open_cell(grid, x + 1, y + 1) { n = n + 1; }
        n
    }

    /// One smoothing round of the field.
    fn smooth_round(&self, grid: &Vec<Vec<bool>>) -> (next: Vec<Vec<bool>>)
        requires
            shaped(cells(grid@), MAP_WIDTH as int, MAP_HEIGHT as int),
        ensures
            cells(next@) == smooth(cells(grid@), self.connectivity_threshold as int),
    {
        let ghost g = cells(grid@);
        let ghost target = smooth(g, self.connectivity_threshold as int);
        let mut next: Vec<Vec<bool>> = Vec::new();
        let mut y: usize = 0;
        while y < MAP_HEIGHT
            invariant
                g == cells(grid@),
                target == smooth(g, self.connectivity_threshold as int),
                shaped(g, MAP_WIDTH as int, MAP_HEIGHT as int),
                y <= MAP_HEIGHT,
                next@.len() == y,
                forall|r: int| 0 <= r < y ==> #[trigger] cells(next@)[r] == target[r],
            decreases MAP_HEIGHT - y,
        {
            let mut row: Vec<bool> = Vec::new();
            let mut x: usize = 0;
            while x < MAP_WIDTH
                invariant
                    g == cells(grid@),
                    target == smooth(g, self.connectivity_threshold as int),
                    shaped(g, MAP_WIDTH as int, MAP_HEIGHT as int),
                    y < MAP_HEIGHT,
                    x <= MAP_WIDTH,
                    row@.len() == x,
                    forall|c: int| 0 <= c < x ==> row@[c] == #[trigger] target[y as int][c],
                decreases MAP_WIDTH - x,
            {
                proof {
                    assert(g[y as int] == grid@[y as int]@);
                }
                let here = grid[y][x];
                let v = if x >= 1 && x < MAP_WIDTH - 1 && y >= 1 && y < MAP_HEIGHT - 1 {
                    let n = self.count_floor_neighbors(grid, x as i32, y as i32);
                    if here {
                        n >= self.connectivity_threshold
                    } else {
                        n >= 6
                    }
                } else {
                    here
                };
                row.push(v);
                x = x + 1;
            }
            proof {
                assert(row@ == target[y as int]);
            }
            let ghost before = next@;
            next.push(row);
            proof {
                assert forall|r: int| 0 <= r < y + 1 implies #[trigger] cells(next@)[r] == target[r] by {
                    assert(cells(next@)[r] == next@[r]@);
                    if r < y {
                        assert(next@[r] == before[r]);
                        assert(cells(before)[r] == before[r]@);
                    }
                }
            }
            y = y + 1;
        }
        proof {
            assert(cells(next@) =~= target);
        }
        next
    }

    /// A cave network on a standard map. The initial field, with each cell
    /// a floor at the configured probability (none at zero, all at one or
    /// more), is drawn from the random source; whatever it is, the map is
    /// that field smoothed for the configured rounds, walled at the edge.
    pub fn generate(&self, rng: &mut ChaCha8Rng) -> (m: TileMap)
        ensures
            exists|g0: Seq<Seq<bool>>| {
                &&& shaped(g0, MAP_WIDTH as int, MAP_HEIGHT as int)
                &&& (self.probability == 0 ==> forall|y: int, x: int|
                    0 <= y < MAP_HEIGHT && 0 <= x < MAP_WIDTH ==> !#[trigger] g0[y][x])
                &&& (self.probability >= CHANCE_SCALE ==> forall|y: int, x: int|
                    0 <= y < MAP_HEIGHT && 0 <= x < MAP_WIDTH ==> #[trigger] g0[y][x])
                &&& caves_of(m, smoothed(g0, self.connectivity_threshold as int, self.iterations as nat))
            },
    {
        let p = self.probability;
        let mut grid: Vec<Vec<bool>> = Vec::new();
        let mut y: usize = 0;
        while y < MAP_HEIGHT
            invariant
                y <= MAP_HEIGHT,
                p == self.probability,
                shaped(cells(grid@), MAP_WIDTH as int, y as int),
                p == 0 ==> forall|r: int, x: int| 0 <= r < y && 0 <= x < MAP_WIDTH ==> !#[trigger] cells(grid@)[r][x],
                p >= CHANCE_SCALE ==> forall|r: int, x: int| 0 <= r < y && 0 <= x < MAP_WIDTH ==> #[trigger] cells(grid@)[r][x],
            decreases MAP_HEIGHT - y,
        {
            let mut row: Vec<bool> = Vec::new();
            let mut x: usize = 0;
            while x < MAP_WIDTH
                invariant
                    x <= MAP_WIDTH,
                    row@.len() == x,
                    p == self.probability,
                    p == 0 ==> forall|c: int| 0 <= c < x ==> !#[trigger] row@[c],
                    p >= CHANCE_SCALE ==> forall|c: int| 0 <= c < x ==> #[trigger] row@[c],
                decreases MAP_WIDTH - x,
            {
                let roll = gen_range_u32(rng, 0, CHANCE_SCALE);
                row.push(roll < p);
                x = x + 1;
            }
            let ghost before = grid@;
            grid.push(row);
            proof {
                assert forall|r: int| 0 <= r < y + 1 implies #[trigger] cells(grid@)[r] == (if r < y {
                    cells(before)[r]
                } else {
                    row@
                }) by {}
            }
            y = y + 1;
        }
        let ghost g0 = cells(grid@);
        let ghost threshold = self.connectivity_threshold as int;
        let mut it: usize = 0;
        while it < self.iterations
            invariant
                it <= self.iterations,
                shaped(g0, MAP_WIDTH as int, MAP_HEIGHT as int),
                threshold == self.connectivity_threshold,
                cells(grid@) == smoothed(g0, threshold, it as nat),
            decreases self.iterations - it,
        {
            proof {
                lemma_smoothed_shape(g0, threshold, it as nat);
            }
            grid = self.smooth_round(&grid);
            it = it + 1;
        }
        proof {
            lemma_smoothed_shape(g0, threshold, it as nat);
        }
        let ghost gf = cells(grid@);
        let mut m = TileMap::new(MAP_WIDTH, MAP_HEIGHT);
        proof {
            assert forall|x: int, y: int| #![trigger m.tile_at(x, y)] m.in_bounds_spec(x, y) implies is_wall_named(
                m.tile_at(x, y),
                "stone"@,
                100,
            ) by {
                lemma_cell_index_bounds(MAP_WIDTH as int, MAP_HEIGHT as int, x, y);
            }
        }
        let mut r: usize = 1;
        while r < MAP_HEIGHT - 1
            invariant
                m.wf(),
                m.width == MAP_WIDTH,
                m.height == MAP_HEIGHT,
                gf == cells(grid@),
                shaped(gf, MAP_WIDTH as int, MAP_HEIGHT as int),
                1 <= r <= MAP_HEIGHT - 1,
                forall|x: int, y: int| #![trigger m.tile_at(x, y)] m.in_bounds_spec(x, y) ==> if off_edge(x, y) && y < r && gf[y][x] {
                    stone_floor(m.tile_at(x, y))
                } else {
                    is_wall_named(m.tile_at(x, y), "stone"@, 100)
                },
            decreases MAP_HEIGHT - 1 - r,
        {
            let mut c: usize = 1;
            while c < MAP_WIDTH - 1
                invariant
                    m.wf(),
                    m.width == MAP_WIDTH,
                    m.height == MAP_HEIGHT,
                    gf == cells(grid@),
                    shaped(gf, MAP_WIDTH as int, MAP_HEIGHT as int),
                    1 <= r < MAP_HEIGHT - 1,
                    1 <= c <= MAP_WIDTH - 1,
                    forall|x: int, y: int| #![trigger m.tile_at(x, y)] m.in_bounds_spec(x, y) ==> if off_edge(x, y) && (y < r || (y == r && x < c)) && gf[y][x] {
                        stone_floor(m.tile_at(x, y))
                    } else {
                        is_wall_named(m.tile_at(x, y), "stone"@, 100)
                    },
                decreases MAP_WIDTH - 1 - c,
            {
                proof {
                    assert(gf[r as int] == grid@[r as int]@);
                }
                if grid[r][c] {
                    let ghost m1 = m;
                    let t = floor_tile("stone");
                    m.set_tile(c, r, t);
                    proof {
                        lemma_set_tile_frame(&m1, &m, c as int, r as int, t);
                    }
                }
                c = c + 1;
            }
            r = r + 1;
        }
        m
    }
}

} // verus!
