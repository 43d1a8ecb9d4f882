//! A dungeon of evenly spaced rooms, each joined to its right and lower
//! neighbour by a short corridor.

use vstd::prelude::*;
use rand_chacha::ChaCha8Rng;
use crate::map::{TileMap, Tile, is_wall_named, cell_index, lemma_cell_index_bounds};
use crate::layered::{carve_rect, in_rect, stone_floor};
use crate::structures::{Rectangle, Room, Structure, StructureFeature, StructureParams, StructureType, POIType};

verus! {

/// Size of the dungeon. The organic blend is kept as millionths and plays
/// no part in the layout.
#[derive(Debug, Clone, Copy)]
pub struct DungeonGeneratorParams {
    pub width: u32,
    pub height: u32,
    pub organic_blend_factor: u32,
}

impl Default for DungeonGeneratorParams {
    fn default() -> (p: Self)
        ensures
            p.width == 80,
            p.height == 40,
            p.organic_blend_factor == 300_000,
    {
        DungeonGeneratorParams { width: 80, height: 40, organic_blend_factor: 300_000 }
    }
}

/// The generator of room-grid dungeons.
pub struct DungeonGenerator {
    pub params: DungeonGeneratorParams,
}

/// Rooms across a dungeon `w` cells wide: one per ten columns, at least one.
pub open spec fn rooms_across(w: int) -> int {
    if w / 10 >= 1 { w / 10 } else { 1 }
}

/// Rooms down a dungeon `h` cells high: one per eight rows, at least one.
pub open spec fn rooms_down(h: int) -> int {
    if h / 8 >= 1 { h / 8 } else { 1 }
}

/// The cells that room `(rx, ry)` and its corridors carve before clipping:
/// an 8 x 6 room at `(10 rx + 1, 8 ry + 1)`, a corridor two cells long to the
/// east from its middle row unless it is the last of its row, and one two
/// cells long to the south from its middle column unless it is in the last row.
pub open spec fn pair_carves(w: int, h: int, rx: int, ry: int, x: int, y: int) -> bool {
    let sx = rx * 10 + 1;
    let sy = ry * 8 + 1;
    ||| in_rect(x, y, sx, sy, 8, 6)
    ||| (rx < rooms_across(w) - 1 && in_rect(x, y, sx + 8, sy + 3, 2, 1))
    ||| (ry < rooms_down(h) - 1 && in_rect(x, y, sx + 4, sy + 6, 1, 2))
}

/// The cell is floor in a `w` x `h` dungeon: some room or corridor carves it.
pub open spec fn dungeon_floor(w: int, h: int, x: int, y: int) -> bool {
    exists|rx: int, ry: int|
        0 <= rx < rooms_across(w) && 0 <= ry < rooms_down(h) && #[trigger] pair_carves(w, h, rx, ry, x, y)
}

/// The map is the `w` x `h` dungeon: stone floor where it is carved, stone
/// walls elsewhere.
pub open spec fn is_dungeon(m: TileMap, w: int, h: int) -> bool {
    &&& m.wf()
    &&& m.width == w
    &&& m.height == h
    &&& forall|x: int, y: int| #![trigger m.tile_at(x, y)] m.in_bounds_spec(x, y) ==> if dungeon_floor(w, h, x, y) {
        stone_floor(m.tile_at(x, y))
    } else {
        is_wall_named(m.tile_at(x, y), "stone"@, 100)
    }
}

/// Turn the part of a rectangle that lies inside the map into stone floor.
fn carve_clipped(m: &mut TileMap, x0: usize, y0: usize, w: usize, h: usize)
    requires
        old(m).wf(),
        x0 + w <= usize::MAX,
        y0 + h <= usize::MAX,
    ensures
        final(m).wf(),
        final(m).width == old(m).width,
        final(m).height == old(m).height,
        forall|x: int, y: int| #![trigger final(m).tile_at(x, y)] old(m).in_bounds_spec(x, y) ==> if in_rect(
            x,
            y,
            x0 as int,
            y0 as int,
            w as int,
            h as int,
        ) {
            stone_floor(final(m).tile_at(x, y))
        } else {
            final(m).tile_at(x, y) == old(m).tile_at(x, y)
        },
{
    if x0 >= m.width || y0 >= m.height {
        return;
    }
    let cw = if x0 + w <= m.width { w } else { m.width - x0 };
    let ch = if y0 + h <= m.height { h } else { m.height - y0 };
    carve_rect(m, x0, y0, cw, ch);
}

impl DungeonGenerator {
    pub fn new(params: DungeonGeneratorParams) -> (g: Self)
        ensures
            g.params == params,
    {
        Self { params }
    }

    /// A generator for the default 80 x 40 dungeon.
    pub fn with_default() -> (g: Self)
        ensures
            g.params.width == 80,
            g.params.height == 40,
            g.params.organic_blend_factor == 300_000,
    {
        Self::new(DungeonGeneratorParams::default())
    }

    /// The room-grid dungeon of the configured size. The random source is
    /// not drawn from.
    pub fn generate_simple(&self, _rng: &mut ChaCha8Rng) -> (m: TileMap)
        requires
            self.params.width <= i32::MAX,
            self.params.height <= i32::MAX,
            self.params.width * self.params.height <= u32::MAX,
        ensures
            is_dungeon(m, self.params.width as int, self.params.height as int),
    {
        let width = self.params.width;
        let height = self.params.height;
        let mut m = TileMap::new(width as usize, height as usize);
        let rooms_x: u32 = if width / 10 >= 1 { width / 10 } else { 1 };
        let rooms_y: u32 = if height / 8 >= 1 { height / 8 } else { 1 };
        let ghost w = width as int;
        let ghost h = height as int;
        proof {
            assert forall|x: int, y: int| #![trigger m.tile_at(x, y)] m.in_bounds_spec(x, y) implies is_wall_named(
                m.tile_at(x, y),
                "stone"@,
                100,
            ) by {
                lemma_cell_index_bounds(w, h, x, y);
            }
        }
        let mut ry: u32 = 0;
        while ry < rooms_y
            invariant
                m.wf(),
                m.width == w,
                m.height == h,
                w == width,
                h == height,
                width <= i32::MAX,
                height <= i32::MAX,
                rooms_x == rooms_across(w),
                rooms_y == rooms_down(h),
                ry <= rooms_y,
                forall|x: int, y: int| #![trigger m.tile_at(x, y)] m.in_bounds_spec(x, y) ==> if (exists|rx2: int, ry2: int|
                    0 <= rx2 < rooms_x && 0 <= ry2 < ry && #[trigger] pair_carves(w, h, rx2, ry2, x, y)) {
                    stone_floor(m.tile_at(x, y))
                } else {
                    is_wall_named(m.tile_at(x, y), "stone"@, 100)
                },
            decreases rooms_y - ry,
        {
            let mut rx: u32 = 0;
            while rx < rooms_x
                invariant
                    m.wf(),
                    m.width == w,
                    m.height == h,
                    w == width,
                    h == height,
                    width <= i32::MAX,
                    height <= i32::MAX,
                    rooms_x == rooms_across(w),
                    rooms_y == rooms_down(h),
                    ry < rooms_y,
                    rx <= rooms_x,
                    forall|x: int, y: int| #![trigger m.tile_at(x, y)] m.in_bounds_spec(x, y) ==> if (exists|rx2: int, ry2: int|
                        0 <= rx2 < rooms_x && 0 <= ry2 <= ry && (ry2 < ry || rx2 < rx)
                            && #[trigger] pair_carves(w, h, rx2, ry2, x, y)) {
                        stone_floor(m.tile_at(x, y))
                    } else {
                        is_wall_named(m.tile_at(x, y), "stone"@, 100)
                    },
                decreases rooms_x - rx,
            {
                let ghost before = m;
                let sx: usize = (rx as usize) * 10 + 1;
                let sy: usize = (ry as usize) * 8 + 1;
                carve_clipped(&mut m, sx, sy, 8, 6);
                let ghost after_room = m;
                if rx + 1 < rooms_x {
                    carve_clipped(&mut m, sx + 8, sy + 3, 2, 1);
                }
                let ghost after_east = m;
                if ry + 1 < rooms_y {
                    carve_clipped(&mut m, sx + 4, sy + 6, 1, 2);
                }
                proof {
                    assert forall|x: int, y: int| #![trigger m.tile_at(x, y)] m.in_bounds_spec(x, y) implies (if pair_carves(
                        w,
                        h,
                        rx as int,
                        ry as int,
                        x,
                        y,
                    ) {
                        stone_floor(m.tile_at(x, y))
                    } else {
                        m.tile_at(x, y) == before.tile_at(x, y)
                    }) by {
                        assert(after_room.tile_at(x, y) == after_room.tile_at(x, y));
                        assert(after_east.tile_at(x, y) == after_east.tile_at(x, y));
                    }
                    assert forall|x: int, y: int| #![trigger m.tile_at(x, y)] m.in_bounds_spec(x, y) implies (if (exists|rx2: int, ry2: int|
                        0 <= rx2 < rooms_x && 0 <= ry2 <= ry && (ry2 < ry || rx2 < rx + 1)
                            && #[trigger] pair_carves(w, h, rx2, ry2, x, y)) {
                        stone_floor(m.tile_at(x, y))
                    } else {
                        is_wall_named(m.tile_at(x, y), "stone"@, 100)
                    }) by {
                        assert(before.tile_at(x, y) == before.tile_at(x, y));
                        if pair_carves(w, h, rx as int, ry as int, x, y) {
                            assert(stone_floor(m.tile_at(x, y)));
                        }
                    }
                }
                rx = rx + 1;
            }
            proof {
                assert forall|x: int, y: int| #![trigger m.tile_at(x, y)] m.in_bounds_spec(x, y) implies (if (exists|rx2: int, ry2: int|
                    0 <= rx2 < rooms_x && 0 <= ry2 < ry + 1 && #[trigger] pair_carves(w, h, rx2, ry2, x, y)) {
                    stone_floor(m.tile_at(x, y))
                } else {
                    is_wall_named(m.tile_at(x, y), "stone"@, 100)
                }) by {
                    assert(m.tile_at(x, y) == m.tile_at(x, y));
                }
            }
            ry = ry + 1;
        }
        m
    }

    /// The dungeon as a structure: one chamber over the whole area and a
    /// "floor" or "wall" feature for every cell, row by row.
    pub fn generate(&self, _params: &StructureParams, rng: &mut ChaCha8Rng) -> (r: Option<Structure>)
        requires
            self.params.width <= i32::MAX,
            self.params.height <= i32::MAX,
            self.params.width * self.params.height <= u32::MAX,
        ensures
            r matches Some(s) && dungeon_structure(s, self.params.width as int, self.params.height as int),
    {
        let width = self.params.width;
        let height = self.params.height;
        let bounds = Rectangle::new(0, 0, width, height);
        let m = self.generate_simple(rng);
        let mut rooms: Vec<Room> = Vec::new();
        rooms.push(Room { bounds, room_type: "dungeon_chamber".to_owned(), depth_from_entrance: 0 });
        let mut features: Vec<StructureFeature> = Vec::new();
        let n = m.tiles.len();
        let w = m.width;
        let mut idx: usize = 0;
        while idx < n
            invariant
                is_dungeon(m, width as int, height as int),
                w == width,
                n == m.tiles@.len(),
                idx <= n,
                features@.len() == idx,
                forall|i: int| 0 <= i < idx ==> dungeon_cell_feature(#[trigger] features@[i], width as int, height as int, i),
            decreases n - idx,
        {
            let x = idx % w;
            let y = idx / w;
            proof {
                vstd::arithmetic::div_mod::lemma_fundamental_div_mod(idx as int, w as int);
                assert(y < height) by (nonlinear_arith)
                    requires
                        idx as int == w * (y as int) + (x as int),
                        0 <= x < w,
                        idx < w * height,
                ;
                assert(cell_index(w as int, x as int, y as int) == idx as int) by (nonlinear_arith)
                    requires
                        idx as int == w * (y as int) + (x as int),
                ;
            }
            let kind = match &m.tiles[idx] {
                Tile::Floor { .. } => "floor",
                _ => "wall",
            };
            proof {
                assert(m.tile_at(x as int, y as int) == m.tiles@[idx as int]);
            }
            features.push(StructureFeature { position: (x as u32, y as u32), feature_type: kind.to_owned(), properties: Vec::new() });
            idx = idx + 1;
        }
        Some(Structure {
            structure_type: StructureType::Dungeon,
            bounds,
            rooms,
            corridors: Vec::new(),
            features,
            spawn_points: Vec::new(),
            metadata: Vec::new(),
        })
    }

    /// The points of interest dungeons are generated for.
    pub fn get_supported_poi_types(&self) -> (v: Vec<POIType>)
        ensures
            v@ == seq![POIType::Dungeon],
    {
        let mut v = Vec::new();
        v.push(POIType::Dungeon);
        v
    }
}

/// Feature `i` of a `w` x `h` dungeon: the cell at column `i % w` of row
/// `i / w`, a "floor" where the dungeon is carved and a "wall" elsewhere.
pub open spec fn dungeon_cell_feature(f: StructureFeature, w: int, h: int, i: int) -> bool {
    let x = i % w;
    let y = i / w;
    &&& f.position == ((x as u32), (y as u32))
    &&& f.feature_type@ == (if dungeon_floor(w, h, x, y) { "floor"@ } else { "wall"@ })
    &&& f.properties@.len() == 0
}

/// The dungeon structure of a `w` x `h` area.
pub open spec fn dungeon_structure(s: Structure, w: int, h: int) -> bool {
    let bounds = Rectangle { x: 0, y: 0, width: w as u32, height: h as u32 };
    &&& s.structure_type == StructureType::Dungeon
    &&& s.bounds == bounds
    &&& s.rooms@.len() == 1
    &&& s.rooms@[0].bounds == bounds
    &&& s.rooms@[0].room_type@ == "dungeon_chamber"@
    &&& s.rooms@[0].depth_from_entrance == 0
    &&& s.corridors@.len() == 0
    &&& s.spawn_points@.len() == 0
    &&& s.metadata@.len() == 0
    &&& s.features@.len() == w * h
    &&& forall|i: int| 0 <= i < w * h ==> dungeon_cell_feature(#[trigger] s.features@[i], w, h, i)
}

} // verus!
