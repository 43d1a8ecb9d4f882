//! The tile map that every generator works on.

use vstd::prelude::*;

verus! {

/// Width of a standard play area.
pub const MAP_WIDTH: usize = 250;

/// Height of a standard play area.
pub const MAP_HEIGHT: usize = 110;

/// World biomes.
#[derive(Debug, Clone, Copy, PartialEq, Eq, Hash)]
pub enum Biome {
    Desert,
    Saltflat,
    Scrubland,
    Oasis,
    Ruins,
}

/// A single map tile.
#[derive(Debug)]
pub enum Tile {
    Floor { id: String },
    Wall { id: String, hp: i32 },
    Glass,
    Glare,
    StairsDown,
    StairsUp,
    WorldExit,
}

impl Clone for Tile {
    fn clone(&self) -> (res: Self)
        ensures
            res == *self,
    {
        match self {
            Tile::Floor { id } => Tile::Floor { id: id.clone() },
            Tile::Wall { id, hp } => Tile::Wall { id: id.clone(), hp: *hp },
            Tile::Glass => Tile::Glass,
            Tile::Glare => Tile::Glare,
            Tile::StairsDown => Tile::StairsDown,
            Tile::StairsUp => Tile::StairsUp,
            Tile::WorldExit => Tile::WorldExit,
        }
    }
}

/// Every tile but a wall can be walked on.
pub open spec fn tile_walkable(t: Tile) -> bool {
    !(t is Wall)
}

/// The tile is a floor whose material id is `name`.
pub open spec fn is_floor_named(t: Tile, name: Seq<char>) -> bool {
    t matches Tile::Floor { id } && id@ == name
}

/// The tile is a wall of material `name` with `hp` hit points.
pub open spec fn is_wall_named(t: Tile, name: Seq<char>, hp: i32) -> bool {
    t matches Tile::Wall { id, hp: h } && id@ == name && h == hp
}

impl Tile {
    /// Whether the tile can be walked on.
    pub fn walkable(&self) -> (b: bool)
        ensures
            b == tile_walkable(*self),
    {
        !matches!(self, Tile::Wall { .. })
    }

    /// Whether the tile is a wall.
    pub fn is_wall(&self) -> (b: bool)
        ensures
            b == (*self is Wall),
    {
        matches!(self, Tile::Wall { .. })
    }
}

/// A floor tile of the given material.
pub fn floor_tile(name: &str) -> (t: Tile)
    ensures
        is_floor_named(t, name@),
{
    Tile::Floor { id: name.to_owned() }
}

/// A wall tile of the given material and hit points.
pub fn wall_tile(name: &str, hp: i32) -> (t: Tile)
    ensures
        is_wall_named(t, name@, hp),
{
    Tile::Wall { id: name.to_owned(), hp }
}

/// A rectangular grid of tiles stored row by row.
#[derive(Debug)]
pub struct TileMap {
    pub width: usize,
    pub height: usize,
    pub tiles: Vec<Tile>,
}

/// Row-major index of a cell.
pub open spec fn cell_index(width: int, x: int, y: int) -> int {
    y * width + x
}

impl TileMap {
    /// The tile vector holds exactly one tile per cell and coordinates fit in `i32`.
    pub open spec fn wf(&self) -> bool {
        &&& self.tiles.len() == self.width * self.height
        &&& self.width <= i32::MAX
        &&& self.height <= i32::MAX
    }

    /// The cell lies inside the map.
    pub open spec fn in_bounds_spec(&self, x: int, y: int) -> bool {
        0 <= x < self.width && 0 <= y < self.height
    }

    /// The tile at a cell inside the map.
    pub open spec fn tile_at(&self, x: int, y: int) -> Tile {
        self.tiles@[cell_index(self.width as int, x, y)]
    }

    /// The cell is inside the map and walkable.
    pub open spec fn walkable_at(&self, x: int, y: int) -> bool {
        self.in_bounds_spec(x, y) && tile_walkable(self.tile_at(x, y))
    }

    /// The cell is outside the map or holds a wall.
    pub open spec fn wall_or_outside(&self, x: int, y: int) -> bool {
        !self.in_bounds_spec(x, y) || self.tile_at(x, y) is Wall
    }

    /// A map of the given size filled with stone walls.
    pub fn new(width: usize, height: usize) -> (m: TileMap)
        requires
            width * height <= usize::MAX,
            width <= i32::MAX,
            height <= i32::MAX,
        ensures
            m.wf(),
            m.width == width,
            m.height == height,
            forall|i: int| 0 <= i < m.tiles@.len() ==> is_wall_named(#[trigger] m.tiles@[i], "stone"@, 100),
    {
        let n = width * height;
        let mut tiles: Vec<Tile> = Vec::new();
        let mut i: usize = 0;
        while i < n
            invariant
                i <= n,
                tiles@.len() == i,
                forall|k: int| 0 <= k < i ==> is_wall_named(#[trigger] tiles@[k], "stone"@, 100),
            decreases n - i,
        {
            tiles.push(wall_tile("stone", 100));
            i = i + 1;
        }
        TileMap { width, height, tiles }
    }

    /// Whether a cell lies inside the map.
    pub fn in_bounds(&self, x: i32, y: i32) -> (b: bool)
        ensures
            b == self.in_bounds_spec(x as int, y as int),
    {
        x >= 0 && y >= 0 && (x as usize) < self.width && (y as usize) < self.height
    }

    /// Row-major index of a cell inside the map.
    pub fn idx(&self, x: i32, y: i32) -> (i: usize)
        requires
            self.wf(),
            self.in_bounds_spec(x as int, y as int),
        ensures
            i as int == cell_index(self.width as int, x as int, y as int),
            i < self.tiles@.len(),
    {
        proof {
            lemma_cell_index_bounds(self.width as int, self.height as int, x as int, y as int);
        }
        (y as usize) * self.width + (x as usize)
    }

    /// Index of a cell, or `None` outside the map.
    pub fn pos_to_idx(&self, x: i32, y: i32) -> (r: Option<usize>)
        requires
            self.wf(),
        ensures
            r is Some <==> self.in_bounds_spec(x as int, y as int),
            r matches Some(i) ==> i as int == cell_index(self.width as int, x as int, y as int)
                && i < self.tiles@.len(),
    {
        if self.in_bounds(x, y) {
            Some(self.idx(x, y))
        } else {
            None
        }
    }

    /// The tile at a cell, or `None` outside the map.
    pub fn get(&self, x: i32, y: i32) -> (r: Option<&Tile>)
        requires
            self.wf(),
        ensures
            r is Some <==> self.in_bounds_spec(x as int, y as int),
            r matches Some(t) ==> *t == self.tile_at(x as int, y as int),
    {
        if self.in_bounds(x, y) {
            let i = self.idx(x, y);
            Some(&self.tiles[i])
        } else {
            None
        }
    }

    /// The tile at a cell inside the map.
    pub fn get_tile(&self, x: i32, y: i32) -> (t: &Tile)
        requires
            self.wf(),
            self.in_bounds_spec(x as int, y as int),
        ensures
            *t == self.tile_at(x as int, y as int),
    {
        let i = self.idx(x, y);
        &self.tiles[i]
    }

    /// Whether a cell is inside the map and walkable.
    pub fn is_walkable(&self, x: i32, y: i32) -> (b: bool)
        requires
            self.wf(),
        ensures
            b == self.walkable_at(x as int, y as int),
    {
        match self.get(x, y) {
            Some(t) => t.walkable(),
            None => false,
        }
    }

    /// Whether a cell is outside the map or holds a wall.
    pub fn is_wall(&self, x: i32, y: i32) -> (b: bool)
        requires
            self.wf(),
        ensures
            b == self.wall_or_outside(x as int, y as int),
    {
        match self.get(x, y) {
            Some(t) => t.is_wall(),
            None => true,
        }
    }

    /// Replace the tile at a cell inside the map.
    pub fn set_tile(&mut self, x: usize, y: usize, tile: Tile)
        requires
            old(self).wf(),
            x < old(self).width,
            y < old(self).height,
        ensures
            final(self).wf(),
            final(self).width == old(self).width,
            final(self).height == old(self).height,
            final(self).tiles@ == old(self).tiles@.update(
                cell_index(old(self).width as int, x as int, y as int),
                tile,
            ),
    {
        proof {
            lemma_cell_index_bounds(self.width as int, self.height as int, x as int, y as int);
        }
        let i = y * self.width + x;
        self.tiles.set(i, tile);
    }
}

/// A cell index inside a `width` x `height` grid is below `width * height`.
pub proof fn lemma_cell_index_bounds(width: int, height: int, x: int, y: int)
    requires
        0 <= x < width,
        0 <= y < height,
    ensures
        0 <= cell_index(width, x, y) < width * height,
        cell_index(width, x, y) + 1 <= width * height,
{
    assert(y * width + x < width * height) by (nonlinear_arith)
        requires
            0 <= x < width,
            0 <= y < height,
    ;
    assert(0 <= y * width) by (nonlinear_arith)
        requires
            0 <= y,
            0 <= width,
    ;
}

/// Writing a tile and reading it back gives the written tile, and leaves every
/// other cell as it was.
pub proof fn law_set_then_get(old_map: TileMap, new_map: TileMap, x: int, y: int, tile: Tile, ox: int, oy: int)
    requires
        old_map.wf(),
        old_map.in_bounds_spec(x, y),
        old_map.in_bounds_spec(ox, oy),
        new_map.width == old_map.width,
        new_map.height == old_map.height,
        new_map.tiles@ == old_map.tiles@.update(cell_index(old_map.width as int, x, y), tile),
    ensures
        new_map.tile_at(x, y) == tile,
        (ox != x || oy != y) ==> new_map.tile_at(ox, oy) == old_map.tile_at(ox, oy),
{
    lemma_cell_index_bounds(old_map.width as int, old_map.height as int, x, y);
    lemma_cell_index_bounds(old_map.width as int, old_map.height as int, ox, oy);
    if ox != x || oy != y {
        lemma_cell_index_injective(old_map.width as int, x, y, ox, oy);
    }
}

/// After one cell of a map is written, every other cell keeps its tile.
pub proof fn lemma_set_tile_frame(m1: &TileMap, m2: &TileMap, x: int, y: int, t: Tile)
    requires
        m1.wf(),
        m2.width == m1.width,
        m2.height == m1.height,
        m1.in_bounds_spec(x, y),
        m2.tiles@ == m1.tiles@.update(cell_index(m1.width as int, x, y), t),
    ensures
        m2.tile_at(x, y) == t,
        forall|a: int, b: int| m1.in_bounds_spec(a, b) && (a != x || b != y)
            ==> #[trigger] m2.tile_at(a, b) == m1.tile_at(a, b),
{
    lemma_cell_index_bounds(m1.width as int, m1.height as int, x, y);
    assert forall|a: int, b: int| m1.in_bounds_spec(a, b) && (a != x || b != y)
        implies #[trigger] m2.tile_at(a, b) == m1.tile_at(a, b) by {
        lemma_cell_index_bounds(m1.width as int, m1.height as int, a, b);
        lemma_cell_index_injective(m1.width as int, a, b, x, y);
    }
}

/// Distinct cells have distinct row-major indices.
pub proof fn lemma_cell_index_injective(width: int, x1: int, y1: int, x2: int, y2: int)
    requires
        0 <= x1 < width,
        0 <= x2 < width,
        0 <= y1,
        0 <= y2,
        x1 != x2 || y1 != y2,
    ensures
        cell_index(width, x1, y1) != cell_index(width, x2, y2),
{
    if y1 == y2 {
    } else if y1 < y2 {
        assert(y1 * width + width <= y2 * width) by (nonlinear_arith)
            requires
                y1 < y2,
                0 <= width,
        ;
    } else {
        assert(y2 * width + width <= y1 * width) by (nonlinear_arith)
            requires
                y2 < y1,
                0 <= width,
        ;
    }
}

} // verus!
