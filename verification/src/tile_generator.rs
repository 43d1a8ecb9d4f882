//! Choosing where the player arrives on a freshly generated tile, what the
//! generator does after checking an attempt's base map, and the description
//! of a tile-generation test case.

use vstd::prelude::*;
use crate::map::{TileMap, Biome, MAP_WIDTH, MAP_HEIGHT, tile_walkable, cell_index, lemma_cell_index_bounds};
use crate::poi::{Terrain, POI};
use crate::layered::layer_shaped;
use crate::quest_constraints::{first_walkable, count_walkable, lemma_first_walkable};

verus! {

/// Base maps drawn for a tile at most; the last one is kept whatever its checks say.
pub const MAX_ATTEMPTS: usize = 5;

/// What the tile generator does once the critical checks of an attempt's
/// base map are in.
#[derive(Debug, Clone, Copy, PartialEq, Eq, Structural)]
pub enum AttemptAction {
    /// Throw the map away and draw another.
    Retry,
    /// Keep the map and add the tile's content to it.
    Finish,
    /// Apply the emergency repairs, then keep the map.
    RepairThenFinish,
}

/// The generator keeps a map whose critical checks pass; on a failure it draws
/// again, except on the last attempt, where it repairs the map and keeps it.
pub fn attempt_action(attempt: usize, critical_satisfied: bool) -> (a: AttemptAction)
    requires
        attempt < MAX_ATTEMPTS,
    ensures
        critical_satisfied ==> a == AttemptAction::Finish,
        !critical_satisfied && attempt + 1 == MAX_ATTEMPTS ==> a == AttemptAction::RepairThenFinish,
        !critical_satisfied && attempt + 1 < MAX_ATTEMPTS ==> a == AttemptAction::Retry,
{
    if critical_satisfied {
        AttemptAction::Finish
    } else if attempt + 1 == MAX_ATTEMPTS {
        AttemptAction::RepairThenFinish
    } else {
        AttemptAction::Retry
    }
}

/// A tile-generation test case, as its configuration file states it.
#[derive(Debug, Clone)]
pub struct TileTestConfig {
    pub name: String,
    pub biome: Biome,
    pub terrain: Terrain,
    pub elevation: u8,
    pub poi: POI,
    pub level: u32,
    pub faction_territory: Option<String>,
    pub seed: Option<u64>,
}

/// The cell lies in the 20 x 20 window around the centre of the play area.
pub open spec fn in_center_window(x: int, y: int) -> bool {
    MAP_WIDTH / 2 - 10 <= x < MAP_WIDTH / 2 + 10 && MAP_HEIGHT / 2 - 10 <= y < MAP_HEIGHT / 2 + 10
}

/// `(a, b)` comes before `(x, y)` when scanning row by row.
pub open spec fn scanned_before(a: int, b: int, x: int, y: int) -> bool {
    b < y || (b == y && a < x)
}

/// Some cell of the central window is walkable.
pub open spec fn center_has_floor(m: TileMap) -> bool {
    exists|x: int, y: int| in_center_window(x, y) && #[trigger] m.walkable_at(x, y)
}

/// Where the player arrives: the first walkable cell of the central window
/// in row order; failing that, the first walkable cell of the map; failing
/// that, the centre.
pub fn find_safe_spawn_position(map: &TileMap) -> (p: (i32, i32))
    requires
        layer_shaped(*map),
    ensures
        center_has_floor(*map) ==> in_center_window(p.0 as int, p.1 as int) && map.walkable_at(p.0 as int, p.1 as int)
            && forall|a: int, b: int| in_center_window(a, b) && scanned_before(a, b, p.0 as int, p.1 as int)
                ==> !#[trigger] map.walkable_at(a, b),
        !center_has_floor(*map) ==> match first_walkable(map.tiles@) {
            Some(i) => p == ((i % MAP_WIDTH as int) as i32, (i / MAP_WIDTH as int) as i32),
            None => p == ((MAP_WIDTH / 2) as i32, (MAP_HEIGHT / 2) as i32),
        },
{
    let mut y: usize = MAP_HEIGHT / 2 - 10;
    while y < MAP_HEIGHT / 2 + 10
        invariant
            layer_shaped(*map),
            MAP_HEIGHT / 2 - 10 <= y <= MAP_HEIGHT / 2 + 10,
            forall|a: int, b: int| in_center_window(a, b) && b < y ==> !#[trigger] map.walkable_at(a, b),
        decreases MAP_HEIGHT / 2 + 10 - y,
    {
        let mut x: usize = MAP_WIDTH / 2 - 10;
        while x < MAP_WIDTH / 2 + 10
            invariant
                layer_shaped(*map),
                MAP_HEIGHT / 2 - 10 <= y < MAP_HEIGHT / 2 + 10,
                MAP_WIDTH / 2 - 10 <= x <= MAP_WIDTH / 2 + 10,
                forall|a: int, b: int| in_center_window(a, b) && scanned_before(a, b, x as int, y as int)
                    ==> !#[trigger] map.walkable_at(a, b),
            decreases MAP_WIDTH / 2 + 10 - x,
        {
            proof {
                lemma_cell_index_bounds(MAP_WIDTH as int, MAP_HEIGHT as int, x as int, y as int);
            }
            let idx = y * MAP_WIDTH + x;
            if map.tiles[idx].walkable() {
                assert(map.walkable_at(x as int, y as int));
                return (x as i32, y as i32);
            }
            x = x + 1;
        }
        y = y + 1;
    }
    assert(!center_has_floor(*map));
    proof {
        lemma_first_walkable(map.tiles@);
    }
    let mut idx: usize = 0;
    while idx < map.tiles.len()
        invariant
            layer_shaped(*map),
            !center_has_floor(*map),
            idx <= map.tiles@.len(),
            forall|k: int| 0 <= k < idx ==> !tile_walkable(#[trigger] map.tiles@[k]),
        decreases map.tiles@.len() - idx,
    {
        if map.tiles[idx].walkable() {
            proof {
                lemma_first_walkable(map.tiles@);
            }
            assert(first_walkable(map.tiles@) == Some(idx as int));
            return ((idx % MAP_WIDTH) as i32, (idx / MAP_WIDTH) as i32);
        }
        idx = idx + 1;
    }
    ((MAP_WIDTH / 2) as i32, (MAP_HEIGHT / 2) as i32)
}

} // verus!
