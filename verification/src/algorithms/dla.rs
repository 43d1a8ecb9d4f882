//! Diffusion-limited aggregation: random walkers stick to a growing cave.

use vstd::prelude::*;
use rand_chacha::ChaCha8Rng;
use crate::map::{TileMap, Tile, MAP_WIDTH, MAP_HEIGHT, cell_index, floor_tile, is_floor_named,
    is_wall_named, lemma_cell_index_bounds, lemma_cell_index_injective};
use crate::rng::{gen_range_usize, gen_range_i32};

verus! {

/// Seeds, walkers, and how long each walker may wander.
pub struct DLAAlgorithm {
    pub seed_count: usize,
    pub walker_count: usize,
    pub max_iterations: usize,
}

/// The cell is inside a standard map and holds a floor.
pub open spec fn floor_at(m: &TileMap, x: int, y: int) -> bool {
    0 <= x < MAP_WIDTH && 0 <= y < MAP_HEIGHT && m.tile_at(x, y) is Floor
}

/// One of the four cells next to `(x, y)` holds a floor.
pub open spec fn touches_floor(m: &TileMap, x: int, y: int) -> bool {
    floor_at(m, x - 1, y) || floor_at(m, x + 1, y) || floor_at(m, x, y - 1) || floor_at(m, x, y + 1)
}

/// The central box that seeds are dropped in.
pub open spec fn in_seed_box(x: int, y: int) -> bool {
    MAP_WIDTH / 4 <= x < 3 * MAP_WIDTH / 4 && MAP_HEIGHT / 4 <= y < 3 * MAP_HEIGHT / 4
}

/// At least one cell from every edge.
pub open spec fn interior(x: int, y: int) -> bool {
    1 <= x <= MAP_WIDTH - 2 && 1 <= y <= MAP_HEIGHT - 2
}

/// A standard-size map of stone walls and stone floors in which every floor
/// lies off the edge and is a seed or touches another floor.
pub open spec fn aggregate(m: &TileMap) -> bool {
    &&& m.wf()
    &&& m.width == MAP_WIDTH
    &&& m.height == MAP_HEIGHT
    &&& forall|i: int|
        0 <= i < m.tiles@.len() ==> is_wall_named(#[trigger] m.tiles@[i], "stone"@, 100) || is_floor_named(
            m.tiles@[i],
            "stone"@,
        )
    &&& forall|x: int, y: int|
        #[trigger] floor_at(m, x, y) ==> interior(x, y) && (in_seed_box(x, y) || touches_floor(m, x, y))
}

/// Turning one more cell into a stone floor keeps the aggregate's shape when
/// the cell is off the edge and is a seed or touches a floor.
proof fn lemma_add_floor(m1: &TileMap, m2: &TileMap, cx: int, cy: int)
    requires
        aggregate(m1),
        m2.width == m1.width,
        m2.height == m1.height,
        interior(cx, cy),
        in_seed_box(cx, cy) || touches_floor(m1, cx, cy),
        m2.tiles@ == m1.tiles@.update(cell_index(MAP_WIDTH as int, cx, cy), Tile::Floor { id: m2.tile_at(cx, cy)->Floor_id }),
        is_floor_named(m2.tile_at(cx, cy), "stone"@),
    ensures
        aggregate(m2),
        forall|x: int, y: int| floor_at(m1, x, y) ==> #[trigger] floor_at(m2, x, y),
{
    lemma_cell_index_bounds(MAP_WIDTH as int, MAP_HEIGHT as int, cx, cy);
    assert forall|x: int, y: int| 0 <= x < MAP_WIDTH && 0 <= y < MAP_HEIGHT && (x != cx || y != cy) implies
        #[trigger] m2.tile_at(x, y) == m1.tile_at(x, y) by {
        lemma_cell_index_injective(MAP_WIDTH as int, x, y, cx, cy);
        lemma_cell_index_bounds(MAP_WIDTH as int, MAP_HEIGHT as int, x, y);
    }
    assert forall|x: int, y: int| floor_at(m1, x, y) implies #[trigger] floor_at(m2, x, y) by {
        if x != cx || y != cy {
            assert(m2.tile_at(x, y) == m1.tile_at(x, y));
        }
    }
    assert forall|i: int| 0 <= i < m2.tiles@.len() implies is_wall_named(#[trigger] m2.tiles@[i], "stone"@, 100)
        || is_floor_named(m2.tiles@[i], "stone"@) by {
        if i != cell_index(MAP_WIDTH as int, cx, cy) {
            assert(m2.tiles@[i] == m1.tiles@[i]);
        }
    }
    assert forall|x: int, y: int| #[trigger] floor_at(m2, x, y) implies interior(x, y) && (in_seed_box(x, y)
        || touches_floor(m2, x, y)) by {
        if x != cx || y != cy {
            assert(m2.tile_at(x, y) == m1.tile_at(x, y));
            assert(floor_at(m1, x, y));
            assert(floor_at(m1, x - 1, y) ==> floor_at(m2, x - 1, y));
            assert(floor_at(m1, x + 1, y) ==> floor_at(m2, x + 1, y));
            assert(floor_at(m1, x, y - 1) ==> floor_at(m2, x, y - 1));
            assert(floor_at(m1, x, y + 1) ==> floor_at(m2, x, y + 1));
        } else {
            assert(floor_at(m1, x - 1, y) ==> floor_at(m2, x - 1, y));
            assert(floor_at(m1, x + 1, y) ==> floor_at(m2, x + 1, y));
            assert(floor_at(m1, x, y - 1) ==> floor_at(m2, x, y - 1));
            assert(floor_at(m1, x, y + 1) ==> floor_at(m2, x, y + 1));
        }
    }
}

/// Whether the cell holds a floor.
fn floor_cell(m: &TileMap, x: usize, y: usize) -> (b: bool)
    requires
        m.wf(),
        m.width == MAP_WIDTH,
        m.height == MAP_HEIGHT,
        x < MAP_WIDTH,
        y < MAP_HEIGHT,
    ensures
        b == floor_at(m, x as int, y as int),
{
    proof {
        lemma_cell_index_bounds(MAP_WIDTH as int, MAP_HEIGHT as int, x as int, y as int);
    }
    let i = y * MAP_WIDTH + x;
    matches!(m.tiles[i], Tile::Floor { .. })
}

/// How many tiles of the list are floors.
pub open spec fn floors_in(s: Seq<Tile>) -> nat
    decreases s.len(),
{
    if s.len() == 0 {
        0
    } else {
        floors_in(s.drop_last()) + if s.last() is Floor { 1nat } else { 0nat }
    }
}

proof fn lemma_floors_update(s: Seq<Tile>, i: int, t: Tile)
    requires
        0 <= i < s.len(),
    ensures
        floors_in(s.update(i, t)) <= floors_in(s) + 1,
    decreases s.len(),
{
    let u = s.update(i, t);
    if i == s.len() - 1 {
        assert(u.drop_last() =~= s.drop_last());
    } else {
        lemma_floors_update(s.drop_last(), i, t);
        assert(u.drop_last() =~= s.drop_last().update(i, t));
    }
}

proof fn lemma_no_floors(s: Seq<Tile>)
    requires
        forall|i: int| 0 <= i < s.len() ==> !(#[trigger] s[i] is Floor),
    ensures
        floors_in(s) == 0,
    decreases s.len(),
{
    if s.len() > 0 {
        lemma_no_floors(s.drop_last());
    }
}

proof fn lemma_floor_counted(s: Seq<Tile>, i: int)
    requires
        0 <= i < s.len(),
        s[i] is Floor,
    ensures
        floors_in(s) >= 1,
    decreases s.len(),
{
    if i < s.len() - 1 {
        lemma_floor_counted(s.drop_last(), i);
    }
}

/// Turn a cell into a stone floor.
fn set_floor(m: &mut TileMap, x: usize, y: usize)
    requires
        aggregate(old(m)),
        interior(x as int, y as int),
        in_seed_box(x as int, y as int) || touches_floor(old(m), x as int, y as int),
    ensures
        aggregate(final(m)),
        floor_at(final(m), x as int, y as int),
        forall|a: int, b: int| floor_at(old(m), a, b) ==> #[trigger] floor_at(final(m), a, b),
        floors_in(final(m).tiles@) <= floors_in(old(m).tiles@) + 1,
{
    let ghost m1 = *m;
    let t = floor_tile("stone");
    m.set_tile(x, y, t);
    proof {
        lemma_cell_index_bounds(MAP_WIDTH as int, MAP_HEIGHT as int, x as int, y as int);
        lemma_add_floor(&m1, m, x as int, y as int);
        lemma_floors_update(m1.tiles@, cell_index(MAP_WIDTH as int, x as int, y as int), t);
    }
}

impl DLAAlgorithm {
    /// Five seeds, a thousand walkers, ten thousand steps each.
    pub fn new() -> (a: Self)
        ensures
            a.seed_count == 5,
            a.walker_count == 1000,
            a.max_iterations == 10000,
    {
        Self { seed_count: 5, walker_count: 1000, max_iterations: 10000 }
    }

    pub fn with_params(seed_count: usize, walker_count: usize, max_iterations: usize) -> (a: Self)
        ensures
            a.seed_count == seed_count,
            a.walker_count == walker_count,
            a.max_iterations == max_iterations,
    {
        Self { seed_count, walker_count, max_iterations }
    }

    /// A standard-size stone map in which floors grow from seeds dropped in
    /// the central box: each walker wanders from a drawn cell until it is next
    /// to a floor, and turns its own cell into floor there.
    pub fn generate(&self, rng: &mut ChaCha8Rng) -> (m: TileMap)
        ensures
            aggregate(&m),
            floors_in(m.tiles@) <= self.seed_count + self.walker_count,
            self.seed_count == 0 ==> floors_in(m.tiles@) == 0,
            self.seed_count > 0 ==> exists|x: int, y: int| #[trigger] floor_at(&m, x, y) && in_seed_box(x, y),
    {
        let mut m = TileMap::new(MAP_WIDTH, MAP_HEIGHT);
        proof {
            assert forall|x: int, y: int| #[trigger] floor_at(&m, x, y) implies false by {
                lemma_cell_index_bounds(MAP_WIDTH as int, MAP_HEIGHT as int, x, y);
            }
            assert forall|i: int| 0 <= i < m.tiles@.len() implies !(#[trigger] m.tiles@[i] is Floor) by {
                assert(is_wall_named(m.tiles@[i], "stone"@, 100));
            }
            lemma_no_floors(m.tiles@);
        }
        let mut s: usize = 0;
        while s < self.seed_count
            invariant
                aggregate(&m),
                s <= self.seed_count,
                floors_in(m.tiles@) <= s,
                s > 0 ==> exists|x: int, y: int| #[trigger] floor_at(&m, x, y) && in_seed_box(x, y),
            decreases self.seed_count - s,
        {
            let x = gen_range_usize(rng, MAP_WIDTH / 4, 3 * MAP_WIDTH / 4);
            let y = gen_range_usize(rng, MAP_HEIGHT / 4, 3 * MAP_HEIGHT / 4);
            set_floor(&mut m, x, y);
            proof {
                assert(floor_at(&m, x as int, y as int) && in_seed_box(x as int, y as int));
            }
            s = s + 1;
        }
        let mut w: usize = 0;
        while w < self.walker_count
            invariant
                aggregate(&m),
                w <= self.walker_count,
                floors_in(m.tiles@) <= self.seed_count + w,
                self.seed_count == 0 ==> floors_in(m.tiles@) == 0,
                self.seed_count > 0 ==> exists|x: int, y: int| #[trigger] floor_at(&m, x, y) && in_seed_box(x, y),
            decreases self.walker_count - w,
        {
            let mut wx = gen_range_usize(rng, 1, MAP_WIDTH - 1);
            let mut wy = gen_range_usize(rng, 1, MAP_HEIGHT - 1);
            let mut it: usize = 0;
            let ghost f0 = floors_in(m.tiles@);
            while it < self.max_iterations
                invariant_except_break
                    floors_in(m.tiles@) == f0,
                invariant
                    aggregate(&m),
                    1 <= wx <= MAP_WIDTH - 2,
                    1 <= wy <= MAP_HEIGHT - 2,
                    self.seed_count == 0 ==> floors_in(m.tiles@) == 0,
                    self.seed_count > 0 ==> exists|x: int, y: int| #[trigger] floor_at(&m, x, y) && in_seed_box(x, y),
                ensures
                    floors_in(m.tiles@) <= f0 + 1,
                decreases self.max_iterations - it,
            {
                let adjacent = floor_cell(&m, wx - 1, wy) || floor_cell(&m, wx + 1, wy)
                    || floor_cell(&m, wx, wy - 1) || floor_cell(&m, wx, wy + 1);
                if adjacent {
                    proof {
                        if self.seed_count == 0 {
                            let (fx, fy) = if floor_at(&m, wx - 1, wy as int) { (wx - 1, wy as int) } else if floor_at(&m, wx + 1, wy as int) {
                                (wx + 1, wy as int)
                            } else if floor_at(&m, wx as int, wy - 1) { (wx as int, wy - 1) } else { (wx as int, wy + 1) };
                            assert(floor_at(&m, fx, fy));
                            lemma_cell_index_bounds(MAP_WIDTH as int, MAP_HEIGHT as int, fx, fy);
                            lemma_floor_counted(m.tiles@, cell_index(MAP_WIDTH as int, fx, fy));
                        }
                    }
                    let ghost before = m;
                    set_floor(&mut m, wx, wy);
                    proof {
                        if self.seed_count > 0 {
                            let (sx, sy) = choose|x: int, y: int| #[trigger] floor_at(&before, x, y) && in_seed_box(x, y);
                            assert(floor_at(&m, sx, sy));
                        }
                    }
                    break;
                }
                let direction = gen_range_i32(rng, 0, 4);
                if direction == 0 && wx > 1 {
                    wx = wx - 1;
                } else if direction == 1 && wx < MAP_WIDTH - 2 {
                    wx = wx + 1;
                } else if direction == 2 && wy > 1 {
                    wy = wy - 1;
                } else if direction == 3 && wy < MAP_HEIGHT - 2 {
                    wy = wy + 1;
                }
                if wx <= 0 || wx >= MAP_WIDTH - 1 || wy <= 0 || wy >= MAP_HEIGHT - 1 {
                    wx = gen_range_usize(rng, 1, MAP_WIDTH - 1);
                    wy = gen_range_usize(rng, 1, MAP_HEIGHT - 1);
                }
                it = it + 1;
            }
            w = w + 1;
        }
        m
    }
}

} // verus!
