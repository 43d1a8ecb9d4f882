//! Stamping settlement buildings onto the map: clearing their footprints,
//! drawing their patterns in any of four rotations, and painting paths.

use vstd::prelude::*;
use crate::map::{TileMap, Tile, cell_index, floor_tile, is_floor_named, lemma_cell_index_bounds, lemma_cell_index_injective};
use crate::structure_library::{Structure, LegendEntry, StructureLibrary, position_of};
use crate::connectivity::{count_false, lemma_count_false_update};
use crate::settlement::layout::Building;
use crate::graph::{linked, is_walk, joins, lemma_linked_refl, lemma_linked_push, lemma_linked_mono, forest, root, lemma_root,
    find_root, merged_rank, lemma_union, roots_match, lemma_join, lemma_redundant_edge};

verus! {

/// Width and height of a `w` x `h` building turned by `rotation` degrees.
pub open spec fn rotated_dims(w: int, h: int, rotation: u16) -> (int, int) {
    if rotation == 90 || rotation == 270 { (h, w) } else { (w, h) }
}

/// Where pattern cell `(px, py)` of a `w` x `h` building lands once the
/// building is turned clockwise by `rotation` degrees.
pub open spec fn rotated_offset(px: int, py: int, w: int, h: int, rotation: u16) -> (int, int) {
    if rotation == 90 {
        (h - 1 - py, px)
    } else if rotation == 180 {
        (w - 1 - px, h - 1 - py)
    } else if rotation == 270 {
        (py, w - 1 - px)
    } else {
        (px, py)
    }
}

/// The pattern cell that lands on offset `(ox, oy)`.
pub open spec fn pattern_cell_of(ox: int, oy: int, w: int, h: int, rotation: u16) -> (int, int) {
    if rotation == 90 {
        (oy, h - 1 - ox)
    } else if rotation == 180 {
        (w - 1 - ox, h - 1 - oy)
    } else if rotation == 270 {
        (w - 1 - oy, ox)
    } else {
        (ox, oy)
    }
}

/// Turning pattern cells is one to one: each lands inside the turned
/// building, and the cell landing on an offset is the one turned there.
pub proof fn law_rotation_round_trip(px: int, py: int, w: int, h: int, rotation: u16)
    requires
        0 <= px < w,
        0 <= py < h,
    ensures
        ({
            let o = rotated_offset(px, py, w, h, rotation);
            let d = rotated_dims(w, h, rotation);
            &&& 0 <= o.0 < d.0
            &&& 0 <= o.1 < d.1
            &&& pattern_cell_of(o.0, o.1, w, h, rotation) == (px, py)
        }),
{
}

/// Width and height of a building after rotation.
pub fn effective_dims(w: i32, h: i32, rotation: u16) -> (d: (i32, i32))
    ensures
        d.0 as int == rotated_dims(w as int, h as int, rotation).0,
        d.1 as int == rotated_dims(w as int, h as int, rotation).1,
{
    if rotation == 90 || rotation == 270 { (h, w) } else { (w, h) }
}

/// The compass side an entrance faces after a clockwise rotation; an
/// unknown side counts as south.
pub open spec fn side_index(side: Seq<char>) -> int {
    if side == "north"@ { 0 } else if side == "east"@ { 1 } else if side == "south"@ { 2 } else if side == "west"@ { 3 } else { 2 }
}

pub open spec fn side_name(i: int) -> Seq<char> {
    if i == 0 { "north"@ } else if i == 1 { "east"@ } else if i == 2 { "south"@ } else { "west"@ }
}

/// The side an entrance faces once the building is turned clockwise.
pub fn rotated_side(side: &str, rotation: u16) -> (r: &'static str)
    ensures
        r@ == side_name((side_index(side@) + rotation / 90) % 4),
{
    let s = String::from_str(side);
    let idx: usize = if s == String::from_str("north") {
        0
    } else if s == String::from_str("east") {
        1
    } else if s == String::from_str("south") {
        2
    } else if s == String::from_str("west") {
        3
    } else {
        2
    };
    let k = (idx + (rotation / 90) as usize) % 4;
    if k == 0 {
        "north"
    } else if k == 1 {
        "east"
    } else if k == 2 {
        "south"
    } else {
        "west"
    }
}

/// Where pattern cell `(px, py)` lands once the building is turned.
pub fn rotate_coords(px: i32, py: i32, w: i32, h: i32, rotation: u16) -> (o: (i32, i32))
    requires
        0 <= px < w,
        0 <= py < h,
    ensures
        (o.0 as int, o.1 as int) == rotated_offset(px as int, py as int, w as int, h as int, rotation),
{
    if rotation == 90 {
        (h - 1 - py, px)
    } else if rotation == 180 {
        (w - 1 - px, h - 1 - py)
    } else if rotation == 270 {
        (py, w - 1 - px)
    } else {
        (px, py)
    }
}

/// The cell lies inside the map.
pub open spec fn on_map(m: &TileMap, x: int, y: int) -> bool {
    0 <= x < m.width && 0 <= y < m.height
}

/// The cell lies in the rectangle from `(x0, y0)`, `w` across and `h` down.
pub open spec fn in_rect(x: int, y: int, x0: int, y0: int, w: int, h: int) -> bool {
    x0 <= x < x0 + w && y0 <= y < y0 + h
}

/// Clearing a rectangle: a wall inside it becomes dry soil; everything else
/// stays as it was.
pub open spec fn cleared(old_t: Tile, new_t: Tile, inside: bool) -> bool {
    if inside && old_t is Wall {
        is_floor_named(new_t, "dry_soil"@)
    } else {
        new_t == old_t
    }
}

/// Cells of the map other than the one at `(x, y)` keep their tiles.
proof fn lemma_set_keeps_others(m1: &TileMap, m2: &TileMap, x: int, y: int, t: Tile)
    requires
        m1.wf(),
        m2.width == m1.width,
        m2.height == m1.height,
        on_map(m1, x, y),
        m2.tiles@ == m1.tiles@.update(cell_index(m1.width as int, x, y), t),
    ensures
        m2.tile_at(x, y) == t,
        forall|a: int, b: int| on_map(m1, a, b) && (a != x || b != y) ==> #[trigger] m2.tile_at(a, b) == m1.tile_at(a, b),
{
    lemma_cell_index_bounds(m1.width as int, m1.height as int, x, y);
    assert forall|a: int, b: int| on_map(m1, a, b) && (a != x || b != y) implies #[trigger] m2.tile_at(a, b) == m1.tile_at(a, b) by {
        lemma_cell_index_bounds(m1.width as int, m1.height as int, a, b);
        lemma_cell_index_injective(m1.width as int, a, b, x, y);
    }
}

/// Turn the walls of a rectangle into dry soil.
pub fn clear_rect(m: &mut TileMap, x0: i32, y0: i32, w: i32, h: i32)
    requires
        old(m).wf(),
        w >= 0,
        h >= 0,
        x0 + w <= i32::MAX,
        y0 + h <= i32::MAX,
    ensures
        final(m).wf(),
        final(m).width == old(m).width,
        final(m).height == old(m).height,
        forall|x: int, y: int| on_map(old(m), x, y) ==> cleared(
            old(m).tile_at(x, y),
            #[trigger] final(m).tile_at(x, y),
            in_rect(x, y, x0 as int, y0 as int, w as int, h as int),
        ),
{
    let ghost m0 = *m;
    let mut cy = y0;
    while cy < y0 + h
        invariant
            m.wf(),
            m.width == m0.width,
            m.height == m0.height,
            m0.wf(),
            y0 <= cy <= y0 + h,
            y0 + h <= i32::MAX,
            x0 + w <= i32::MAX,
            w >= 0,
            forall|x: int, y: int| on_map(&m0, x, y) ==> cleared(
                m0.tile_at(x, y),
                #[trigger] m.tile_at(x, y),
                in_rect(x, y, x0 as int, y0 as int, w as int, cy - y0),
            ),
        decreases y0 + h - cy,
    {
        let mut cx = x0;
        while cx < x0 + w
            invariant
                m.wf(),
                m.width == m0.width,
                m.height == m0.height,
                m0.wf(),
                y0 <= cy < y0 + h,
                x0 <= cx <= x0 + w,
                y0 + h <= i32::MAX,
                x0 + w <= i32::MAX,
                forall|x: int, y: int| on_map(&m0, x, y) ==> cleared(
                    m0.tile_at(x, y),
                    #[trigger] m.tile_at(x, y),
                    in_rect(x, y, x0 as int, y0 as int, w as int, cy - y0) || (y == cy && x0 <= x < cx),
                ),
            decreases x0 + w - cx,
        {
            if cx >= 0 && cy >= 0 && (cx as usize) < m.width && (cy as usize) < m.height {
                let is_wall = m.get_tile(cx, cy).is_wall();
                if is_wall {
                    let ghost m1 = *m;
                    let t = floor_tile("dry_soil");
                    m.set_tile(cx as usize, cy as usize, t);
                    proof {
                        lemma_set_keeps_others(&m1, m, cx as int, cy as int, t);
                        assert(m0.tile_at(cx as int, cy as int) is Wall);
                    }
                }
            }
            cx = cx + 1;
        }
        cy = cy + 1;
    }
}

/// Every row of the pattern is `width` long and there are `height` rows.
pub open spec fn pattern_wf(s: &Structure) -> bool {
    &&& s.pattern@.len() == s.height
    &&& forall|i: int| 0 <= i < s.pattern@.len() ==> (#[trigger] s.pattern@[i])@.len() == s.width
    &&& s.width <= 0x4000_0000
    &&& s.height <= 0x4000_0000
}

/// Position of the last legend entry for a character.
pub open spec fn legend_pos(legend: Seq<(char, LegendEntry)>, ch: char) -> Option<int>
    decreases legend.len(),
{
    if legend.len() == 0 {
        None
    } else if legend.last().0 == ch {
        Some(legend.len() - 1)
    } else {
        legend_pos(legend.drop_last(), ch)
    }
}

proof fn lemma_legend_pos_in_range(legend: Seq<(char, LegendEntry)>, ch: char)
    ensures
        legend_pos(legend, ch) matches Some(i) ==> 0 <= i < legend.len(),
    decreases legend.len(),
{
    if legend.len() > 0 {
        lemma_legend_pos_in_range(legend.drop_last(), ch);
    }
}

/// The legend entry whose tile the building puts at offset `(ox, oy)`, if
/// any: spaces, characters missing from the legend, nested structures and
/// open ground put nothing.
pub open spec fn placed_entry(s: &Structure, ox: int, oy: int, rotation: u16) -> Option<LegendEntry> {
    let (px, py) = pattern_cell_of(ox, oy, s.width as int, s.height as int, rotation);
    if 0 <= px < s.width && 0 <= py < s.height {
        let ch = s.pattern@[py]@[px];
        if ch == ' ' {
            None
        } else {
            match legend_pos(s.legend@, ch) {
                Some(k) => match s.legend@[k].1 {
                    LegendEntry::Structure { .. } => None,
                    LegendEntry::Ground => None,
                    e => Some(e),
                },
                None => None,
            }
        }
    } else {
        None
    }
}

/// The tile a legend entry puts down.
pub open spec fn places(e: LegendEntry, t: Tile) -> bool {
    match e {
        LegendEntry::Wall { id } => t == Tile::Wall { id, hp: 100 },
        LegendEntry::Floor { id } => t == Tile::Floor { id },
        LegendEntry::Path => is_floor_named(t, "dirt_path"@),
        LegendEntry::Structure { .. } => false,
        LegendEntry::Ground => false,
        _ => is_floor_named(t, "wood_floor"@),
    }
}

/// Pattern cell `(px, py)` comes before `(qx, qy)` row by row.
pub open spec fn cell_before(px: int, py: int, qx: int, qy: int) -> bool {
    py < qy || (py == qy && px < qx)
}

/// The tile a legend entry puts down, or `None` for nested structures and
/// open ground.
fn entry_tile(e: &LegendEntry) -> (t: Option<Tile>)
    ensures
        match e {
            LegendEntry::Structure { .. } => t is None,
            LegendEntry::Ground => t is None,
            _ => t matches Some(tt) && places(*e, tt),
        },
{
    match e {
        LegendEntry::Wall { id } => Some(Tile::Wall { id: id.clone(), hp: 100 }),
        LegendEntry::Floor { id } => Some(Tile::Floor { id: id.clone() }),
        LegendEntry::Door => Some(floor_tile("wood_floor")),
        LegendEntry::Interactable { .. } => Some(floor_tile("wood_floor")),
        LegendEntry::Npc { .. } => Some(floor_tile("wood_floor")),
        LegendEntry::Structure { .. } => None,
        LegendEntry::Ground => None,
        LegendEntry::Path => Some(floor_tile("dirt_path")),
    }
}

fn find_entry(legend: &Vec<(char, LegendEntry)>, ch: char) -> (r: Option<usize>)
    ensures
        r matches Some(i) ==> legend_pos(legend@, ch) == Some(i as int),
        r is None ==> legend_pos(legend@, ch) is None,
{
    let mut i = legend.len();
    assert(legend@.subrange(0, i as int) =~= legend@);
    while i > 0
        invariant
            i <= legend@.len(),
            legend_pos(legend@, ch) == legend_pos(legend@.subrange(0, i as int), ch),
        decreases i,
    {
        let ghost prefix = legend@.subrange(0, i as int);
        if legend[i - 1].0 == ch {
            assert(prefix.last() == legend@[i - 1]);
            return Some(i - 1);
        }
        assert(prefix.drop_last() =~= legend@.subrange(0, i - 1));
        i = i - 1;
    }
    None
}

/// Draw a structure's pattern with its top-left corner at `(bx, by)`,
/// turned by `rotation`: each cell that its legend gives a tile gets that
/// tile; cells off the map are skipped.
pub fn stamp_pattern(m: &mut TileMap, bx: i32, by: i32, s: &Structure, rotation: u16)
    requires
        old(m).wf(),
        pattern_wf(s),
        -0x2000_0000 <= bx <= 0x2000_0000,
        -0x2000_0000 <= by <= 0x2000_0000,
    ensures
        final(m).wf(),
        final(m).width == old(m).width,
        final(m).height == old(m).height,
        forall|x: int, y: int| on_map(old(m), x, y) ==> match placed_entry(s, x - bx, y - by, rotation) {
            Some(e) => places(e, #[trigger] final(m).tile_at(x, y)),
            None => final(m).tile_at(x, y) == old(m).tile_at(x, y),
        },
{
    let ghost m0 = *m;
    let w = s.width as i32;
    let h = s.height as i32;
    let mut py: usize = 0;
    while py < s.pattern.len()
        invariant
            m.wf(),
            m0.wf(),
            m.width == m0.width,
            m.height == m0.height,
            pattern_wf(s),
            w == s.width,
            h == s.height,
            py <= s.pattern@.len(),
            -0x2000_0000 <= bx <= 0x2000_0000,
            -0x2000_0000 <= by <= 0x2000_0000,
            forall|x: int, y: int| on_map(&m0, x, y) ==> {
                let c = pattern_cell_of(x - bx, y - by, w as int, h as int, rotation);
                match placed_entry(s, x - bx, y - by, rotation) {
                    Some(e) => if cell_before(c.0, c.1, 0, py as int) {
                        places(e, #[trigger] m.tile_at(x, y))
                    } else {
                        m.tile_at(x, y) == m0.tile_at(x, y)
                    },
                    None => m.tile_at(x, y) == m0.tile_at(x, y),
                }
            },
        decreases s.pattern@.len() - py,
    {
        let mut px: usize = 0;
        while px < s.pattern[py].len()
            invariant
                m.wf(),
                m0.wf(),
                m.width == m0.width,
                m.height == m0.height,
                pattern_wf(s),
                w == s.width,
                h == s.height,
                py < s.pattern@.len(),
                px <= s.pattern@[py as int]@.len(),
                -0x2000_0000 <= bx <= 0x2000_0000,
                -0x2000_0000 <= by <= 0x2000_0000,
                forall|x: int, y: int| on_map(&m0, x, y) ==> {
                    let c = pattern_cell_of(x - bx, y - by, w as int, h as int, rotation);
                    match placed_entry(s, x - bx, y - by, rotation) {
                        Some(e) => if cell_before(c.0, c.1, px as int, py as int) {
                            places(e, #[trigger] m.tile_at(x, y))
                        } else {
                            m.tile_at(x, y) == m0.tile_at(x, y)
                        },
                        None => m.tile_at(x, y) == m0.tile_at(x, y),
                    }
                },
            decreases s.pattern@[py as int]@.len() - px,
        {
            let ch = s.pattern[py][px];
            let ghost pxi = px as int;
            let ghost pyi = py as int;
            if ch != ' ' {
                let (ox, oy) = rotate_coords(px as i32, py as i32, w, h, rotation);
                proof {
                    law_rotation_round_trip(pxi, pyi, w as int, h as int, rotation);
                }
                let tx = bx + ox;
                let ty = by + oy;
                if tx >= 0 && ty >= 0 && (tx as usize) < m.width && (ty as usize) < m.height {
                    proof {
                        lemma_legend_pos_in_range(s.legend@, ch);
                    }
                    match find_entry(&s.legend, ch) {
                        Some(k) => {
                            match entry_tile(&s.legend[k].1) {
                                Some(t) => {
                                    let ghost m1 = *m;
                                    m.set_tile(tx as usize, ty as usize, t);
                                    proof {
                                        lemma_set_keeps_others(&m1, m, tx as int, ty as int, t);
                                        assert(pattern_cell_of(tx - bx, ty - by, w as int, h as int, rotation) == (pxi, pyi));
                                        assert(placed_entry(s, tx - bx, ty - by, rotation) == Some(s.legend@[k as int].1));
                                        assert forall|x: int, y: int| on_map(&m0, x, y) && (x != tx || y != ty) implies
                                            pattern_cell_of(x - bx, y - by, w as int, h as int, rotation) != (pxi, pyi)
                                            || placed_entry(s, x - bx, y - by, rotation) is None by {
                                            let c = pattern_cell_of(x - bx, y - by, w as int, h as int, rotation);
                                            if c == (pxi, pyi) && placed_entry(s, x - bx, y - by, rotation) is Some {
                                                assert(rotated_offset(c.0, c.1, w as int, h as int, rotation) == (x - bx, y - by));
                                            }
                                        }
                                    }
                                },
                                None => {
                                    proof {
                                        assert(placed_entry(s, tx - bx, ty - by, rotation) is None);
                                    }
                                },
                            }
                        },
                        None => {},
                    }
                }
            }
            px = px + 1;
        }
        py = py + 1;
    }
}

/// An offset whose pattern cell lies inside the pattern is where that cell
/// lands, inside the turned building.
proof fn lemma_pattern_cell_inverse(ox: int, oy: int, w: int, h: int, rotation: u16)
    requires
        ({
            let c = pattern_cell_of(ox, oy, w, h, rotation);
            0 <= c.0 < w && 0 <= c.1 < h
        }),
    ensures
        ({
            let c = pattern_cell_of(ox, oy, w, h, rotation);
            let d = rotated_dims(w, h, rotation);
            &&& rotated_offset(c.0, c.1, w, h, rotation) == (ox, oy)
            &&& 0 <= ox < d.0
            &&& 0 <= oy < d.1
        }),
{
}

/// The padded footprint a building clears: its turned bounds and one cell
/// around them.
pub open spec fn in_footprint(b: Building, s: &Structure, x: int, y: int) -> bool {
    let d = rotated_dims(s.width as int, s.height as int, b.rotation);
    in_rect(x, y, b.x - 1, b.y - 1, d.0 + 2, d.1 + 2)
}

/// What stamping one building does to a cell: a tile from the pattern
/// where the legend gives one, else the footprint's walls become dry soil.
pub open spec fn building_stamped(b: Building, s: &Structure, x: int, y: int, old_t: Tile, new_t: Tile) -> bool {
    match placed_entry(s, x - b.x, y - b.y, b.rotation) {
        Some(e) => places(e, new_t),
        None => cleared(old_t, new_t, in_footprint(b, s, x, y)),
    }
}

/// Clear a building's padded footprint of walls and draw its pattern.
pub fn stamp_building(m: &mut TileMap, b: &Building, s: &Structure)
    requires
        old(m).wf(),
        pattern_wf(s),
        -0x2000_0000 <= b.x <= 0x2000_0000,
        -0x2000_0000 <= b.y <= 0x2000_0000,
    ensures
        final(m).wf(),
        final(m).width == old(m).width,
        final(m).height == old(m).height,
        forall|x: int, y: int| on_map(old(m), x, y) ==> building_stamped(*b, s, x, y, old(m).tile_at(x, y), #[trigger] final(m).tile_at(x, y)),
{
    let ghost m0 = *m;
    let (ew, eh) = effective_dims(s.width as i32, s.height as i32, b.rotation);
    clear_rect(m, b.x - 1, b.y - 1, ew + 2, eh + 2);
    let ghost m1 = *m;
    stamp_pattern(m, b.x, b.y, s, b.rotation);
    proof {
        assert forall|x: int, y: int| on_map(&m0, x, y) implies building_stamped(*b, s, x, y, m0.tile_at(x, y), #[trigger] m.tile_at(x, y)) by {
            assert(on_map(&m1, x, y));
            if let Some(e) = placed_entry(s, x - b.x, y - b.y, b.rotation) {
            } else {
            }
        }
    }
}

/// Some building whose structure is in the library has the cell in its
/// padded footprint.
pub open spec fn touched(lib: &StructureLibrary, bs: Seq<Building>, x: int, y: int) -> bool {
    exists|i: int| 0 <= i < bs.len() && #[trigger] stamps_cell(lib, bs[i], x, y)
}

/// The building's structure is in the library and its padded footprint
/// holds the cell.
pub open spec fn stamps_cell(lib: &StructureLibrary, b: Building, x: int, y: int) -> bool {
    position_of(lib.structures@, b.prefab_name@) matches Some(k) && in_footprint(b, &lib.structures@[k], x, y)
}

/// The structures in the library have rectangular patterns of bounded size.
pub open spec fn library_stampable(lib: &StructureLibrary) -> bool {
    &&& lib.wf()
    &&& forall|k: int| 0 <= k < lib.structures@.len() ==> pattern_wf(&#[trigger] lib.structures@[k])
}

/// What stamping one building does to the map: with its structure in the
/// library, every cell is stamped as `building_stamped` says; with an
/// unknown structure, nothing changes.
pub open spec fn stamp_step(lib: &StructureLibrary, b: Building, m1: TileMap, m2: TileMap) -> bool {
    &&& m2.wf()
    &&& m2.width == m1.width
    &&& m2.height == m1.height
    &&& match position_of(lib.structures@, b.prefab_name@) {
        Some(k) => forall|x: int, y: int| on_map(&m1, x, y) ==> building_stamped(
            b,
            &lib.structures@[k],
            x,
            y,
            m1.tile_at(x, y),
            #[trigger] m2.tile_at(x, y),
        ),
        None => m2 == m1,
    }
}

/// The maps after each building in turn: the first is `m0`, and each next
/// one is the one before with the next building stamped.
pub open spec fn stamp_steps(lib: &StructureLibrary, bs: Seq<Building>, ms: Seq<TileMap>, m0: TileMap) -> bool {
    &&& ms.len() == bs.len() + 1
    &&& ms[0] == m0
    &&& forall|i: int| 0 <= i < bs.len() ==> #[trigger] stamp_step(lib, bs[i], ms[i], ms[i + 1])
}

/// Stamp each building whose structure is in the library onto the map, in
/// order; buildings of unknown structures are skipped. Cells outside every
/// stamped footprint keep their tiles.
pub fn stamp_settlement(m: &mut TileMap, buildings: &Vec<Building>, library: &StructureLibrary)
    requires
        old(m).wf(),
        library_stampable(library),
        forall|i: int| 0 <= i < buildings@.len() ==> -0x2000_0000 <= (#[trigger] buildings@[i]).x <= 0x2000_0000
            && -0x2000_0000 <= buildings@[i].y <= 0x2000_0000,
    ensures
        final(m).wf(),
        final(m).width == old(m).width,
        final(m).height == old(m).height,
        forall|x: int, y: int| on_map(old(m), x, y) && !touched(library, buildings@, x, y) ==> #[trigger] final(m).tile_at(x, y)
            == old(m).tile_at(x, y),
        exists|ms: Seq<TileMap>| #[trigger] stamp_steps(library, buildings@, ms, *old(m)) && ms.last() == *final(m),
{
    let ghost m0 = *m;
    let ghost mut ms: Seq<TileMap> = seq![*m];
    let mut i: usize = 0;
    while i < buildings.len()
        invariant
            m.wf(),
            m0.wf(),
            m.width == m0.width,
            m.height == m0.height,
            library_stampable(library),
            i <= buildings@.len(),
            forall|j: int| 0 <= j < buildings@.len() ==> -0x2000_0000 <= (#[trigger] buildings@[j]).x <= 0x2000_0000
                && -0x2000_0000 <= buildings@[j].y <= 0x2000_0000,
            forall|x: int, y: int| on_map(&m0, x, y) && !touched(library, buildings@.subrange(0, i as int), x, y) ==> #[trigger] m.tile_at(x, y)
                == m0.tile_at(x, y),
            stamp_steps(library, buildings@.subrange(0, i as int), ms, m0),
            ms.last() == *m,
        decreases buildings@.len() - i,
    {
        let b = &buildings[i];
        let ghost before = *m;
        match library.get(b.prefab_name.as_str()) {
            Some(s) => {
                let ghost k = position_of(library.structures@, b.prefab_name@)->0;
                stamp_building(m, b, s);
                proof {
                    assert forall|x: int, y: int| on_map(&m0, x, y) && !touched(library, buildings@.subrange(0, i + 1), x, y)
                        implies #[trigger] m.tile_at(x, y) == m0.tile_at(x, y) by {
                        let pre = buildings@.subrange(0, i as int);
                        let pre1 = buildings@.subrange(0, i + 1);
                        assert(pre1[i as int] == *b);
                        if touched(library, pre, x, y) {
                            let j = choose|j: int| 0 <= j < pre.len() && #[trigger] stamps_cell(library, pre[j], x, y);
                            assert(pre1[j] == pre[j]);
                            assert(touched(library, pre1, x, y));
                        }
                        assert(!in_footprint(*b, s, x, y)) by {
                            if in_footprint(*b, s, x, y) {
                                assert(stamps_cell(library, pre1[i as int], x, y));
                                assert(touched(library, pre1, x, y));
                            }
                        }
                        assert(on_map(&before, x, y));
                        if let Some(c) = placed_entry(s, x - b.x, y - b.y, b.rotation) {
                            let pc = pattern_cell_of(x - b.x, y - b.y, s.width as int, s.height as int, b.rotation);
                            lemma_pattern_cell_inverse(x - b.x, y - b.y, s.width as int, s.height as int, b.rotation);
                        }
                    }
                }
            },
            None => {
                proof {
                    assert forall|x: int, y: int| on_map(&m0, x, y) && !touched(library, buildings@.subrange(0, i + 1), x, y)
                        implies #[trigger] m.tile_at(x, y) == m0.tile_at(x, y) by {
                        let pre = buildings@.subrange(0, i as int);
                        let pre1 = buildings@.subrange(0, i + 1);
                        if touched(library, pre, x, y) {
                            let j = choose|j: int| 0 <= j < pre.len() && #[trigger] stamps_cell(library, pre[j], x, y);
                            assert(pre1[j] == pre[j]);
                            assert(touched(library, pre1, x, y));
                        }
                    }
                }
            },
        }
        proof {
            let pre = buildings@.subrange(0, i as int);
            let pre1 = buildings@.subrange(0, i + 1);
            let ms1 = ms.push(*m);
            assert(stamp_step(library, buildings@[i as int], before, *m));
            assert forall|j: int| 0 <= j < pre1.len() implies #[trigger] stamp_step(library, pre1[j], ms1[j], ms1[j + 1]) by {
                if j < pre.len() {
                    assert(pre1[j] == pre[j]);
                    assert(ms1[j] == ms[j]);
                    assert(ms1[j + 1] == ms[j + 1]);
                    assert(stamp_step(library, pre[j], ms[j], ms[j + 1]));
                } else {
                    assert(pre1[j] == buildings@[i as int]);
                    assert(ms1[j] == before);
                }
            }
            ms = ms1;
        }
        i = i + 1;
    }
    proof {
        assert(buildings@.subrange(0, i as int) =~= buildings@);
    }
}

/// The turned bounds of a building: its structure's size from the library,
/// or 6 by 6 for an unknown structure.
pub open spec fn footprint(lib: &StructureLibrary, b: Building) -> (int, int, int, int) {
    let (w, h) = match position_of(lib.structures@, b.prefab_name@) {
        Some(k) => (lib.structures@[k].width as int, lib.structures@[k].height as int),
        None => (6int, 6int),
    };
    let d = rotated_dims(w, h, b.rotation);
    (b.x as int, b.y as int, d.0, d.1)
}

/// Distance along one axis from `c` to the span `[lo, lo + len)`.
pub open spec fn gap(c: int, lo: int, len: int) -> int {
    if c < lo { lo - c } else if c >= lo + len { c - (lo + len - 1) } else { 0 }
}

/// The cell lies within 8 cells (straight-line) of the footprint.
pub open spec fn near(f: (int, int, int, int), x: int, y: int) -> bool {
    gap(x, f.0, f.2) * gap(x, f.0, f.2) + gap(y, f.1, f.3) * gap(y, f.1, f.3) <= 64
}

/// The cell lies within 8 cells of some building's footprint.
pub open spec fn near_settlement(lib: &StructureLibrary, bs: Seq<Building>, x: int, y: int) -> bool {
    exists|i: int| 0 <= i < bs.len() && near(#[trigger] footprint(lib, bs[i]), x, y)
}

fn footprint_exec(lib: &StructureLibrary, b: &Building) -> (f: (i32, i32, i32, i32))
    requires
        library_stampable(lib),
        -0x2000_0000 <= b.x <= 0x2000_0000,
        -0x2000_0000 <= b.y <= 0x2000_0000,
    ensures
        (f.0 as int, f.1 as int, f.2 as int, f.3 as int) == footprint(lib, *b),
        0 <= f.2 <= 0x4000_0000,
        0 <= f.3 <= 0x4000_0000,
{
    let (w, h) = match lib.get(b.prefab_name.as_str()) {
        Some(s) => (s.width as i32, s.height as i32),
        None => (6, 6),
    };
    let (ew, eh) = effective_dims(w, h, b.rotation);
    (b.x, b.y, ew, eh)
}

fn gap_exec(c: i32, lo: i32, len: i32) -> (g: i64)
    requires
        -0x2000_0000 <= lo <= 0x2000_0000,
        0 <= len <= 0x4000_0000,
    ensures
        g == gap(c as int, lo as int, len as int),
        g >= 0,
{
    let c = c as i64;
    let lo = lo as i64;
    let len = len as i64;
    if c < lo { lo - c } else if c >= lo + len { c - (lo + len - 1) } else { 0 }
}

fn near_exec(f: (i32, i32, i32, i32), x: i32, y: i32) -> (b: bool)
    requires
        -0x2000_0000 <= f.0 <= 0x2000_0000,
        -0x2000_0000 <= f.1 <= 0x2000_0000,
        0 <= f.2 <= 0x4000_0000,
        0 <= f.3 <= 0x4000_0000,
    ensures
        b == near((f.0 as int, f.1 as int, f.2 as int, f.3 as int), x as int, y as int),
{
    let dx = gap_exec(x, f.0, f.2);
    let dy = gap_exec(y, f.1, f.3);
    if dx > 8 || dy > 8 {
        proof {
            assert(dx * dx + dy * dy > 64) by (nonlinear_arith)
                requires dx > 8 || dy > 8, dx >= 0, dy >= 0;
        }
        return false;
    }
    proof {
        assert(dx * dx <= 64 && dy * dy <= 64) by (nonlinear_arith)
            requires 0 <= dx <= 8, 0 <= dy <= 8;
    }
    dx * dx + dy * dy <= 64
}

/// Turn natural walls within 8 cells of any building footprint into dry
/// soil, following the union of the footprints rather than their bounding
/// box.
pub fn clear_settlement_footprint(m: &mut TileMap, buildings: &Vec<Building>, library: &StructureLibrary)
    requires
        old(m).wf(),
        library_stampable(library),
        forall|i: int| 0 <= i < buildings@.len() ==> -0x2000_0000 <= (#[trigger] buildings@[i]).x <= 0x2000_0000
            && -0x2000_0000 <= buildings@[i].y <= 0x2000_0000,
    ensures
        final(m).wf(),
        final(m).width == old(m).width,
        final(m).height == old(m).height,
        forall|x: int, y: int| on_map(old(m), x, y) ==> cleared(
            old(m).tile_at(x, y),
            #[trigger] final(m).tile_at(x, y),
            near_settlement(library, buildings@, x, y),
        ),
{
    let mut fps: Vec<(i32, i32, i32, i32)> = Vec::new();
    let mut i: usize = 0;
    while i < buildings.len()
        invariant
            library_stampable(library),
            i <= buildings@.len(),
            forall|j: int| 0 <= j < buildings@.len() ==> -0x2000_0000 <= (#[trigger] buildings@[j]).x <= 0x2000_0000
                && -0x2000_0000 <= buildings@[j].y <= 0x2000_0000,
            fps@.len() == i,
            forall|j: int| 0 <= j < i ==> {
                let f = #[trigger] fps@[j];
                &&& (f.0 as int, f.1 as int, f.2 as int, f.3 as int) == footprint(library, buildings@[j])
                &&& -0x2000_0000 <= f.0 <= 0x2000_0000
                &&& -0x2000_0000 <= f.1 <= 0x2000_0000
                &&& 0 <= f.2 <= 0x4000_0000
                &&& 0 <= f.3 <= 0x4000_0000
            },
        decreases buildings@.len() - i,
    {
        let f = footprint_exec(library, &buildings[i]);
        fps.push(f);
        i = i + 1;
    }
    if fps.len() == 0 {
        proof {
            assert forall|x: int, y: int| on_map(old(m), x, y) implies !near_settlement(library, buildings@, x, y) by {}
        }
        return;
    }
    let n = fps.len();
    let mut min_x = fps[0].0;
    let mut min_y = fps[0].1;
    let mut max_x = fps[0].0 + fps[0].2;
    let mut max_y = fps[0].1 + fps[0].3;
    let mut k: usize = 1;
    while k < n
        invariant
            n == fps@.len(),
            1 <= k <= n,
            forall|j: int| 0 <= j < n ==> {
                let f = #[trigger] fps@[j];
                &&& -0x2000_0000 <= f.0 <= 0x2000_0000
                &&& -0x2000_0000 <= f.1 <= 0x2000_0000
                &&& 0 <= f.2 <= 0x4000_0000
                &&& 0 <= f.3 <= 0x4000_0000
            },
            -0x2000_0000 <= min_x <= 0x2000_0000,
            -0x2000_0000 <= min_y <= 0x2000_0000,
            -0x2000_0000 <= max_x <= 0x6000_0000,
            -0x2000_0000 <= max_y <= 0x6000_0000,
            forall|j: int| 0 <= j < k ==> min_x <= (#[trigger] fps@[j]).0 && min_y <= fps@[j].1 && fps@[j].0 + fps@[j].2
                <= max_x && fps@[j].1 + fps@[j].3 <= max_y,
        decreases n - k,
    {
        let f = fps[k];
        if f.0 < min_x { min_x = f.0; }
        if f.1 < min_y { min_y = f.1; }
        if f.0 + f.2 > max_x { max_x = f.0 + f.2; }
        if f.1 + f.3 > max_y { max_y = f.1 + f.3; }
        k = k + 1;
    }
    let lo_x = min_x - 9;
    let lo_y = min_y - 9;
    let hi_x = max_x + 9;
    let hi_y = max_y + 9;
    proof {
        assert(min_x <= fps@[0].0 && fps@[0].0 + fps@[0].2 <= max_x);
        assert(min_y <= fps@[0].1 && fps@[0].1 + fps@[0].3 <= max_y);
    }
    proof {
        assert forall|x: int, y: int| (y >= hi_y || y < lo_y || x < lo_x || x >= hi_x) implies !near_settlement(library, buildings@, x, y) by {
            if near_settlement(library, buildings@, x, y) {
                let t = choose|t: int| 0 <= t < buildings@.len() && near(#[trigger] footprint(library, buildings@[t]), x, y);
                let f = footprint(library, buildings@[t]);
                assert(fps@[t].0 >= min_x);
                assert(fps@[t].0 + fps@[t].2 <= max_x);
                assert(fps@[t].1 >= min_y);
                assert(fps@[t].1 + fps@[t].3 <= max_y);
                let gx = gap(x, f.0, f.2);
                let gy = gap(y, f.1, f.3);
                assert(gx * gx >= 0 && gy * gy >= 0) by (nonlinear_arith);
                if y >= hi_y || y < lo_y {
                    assert(gy >= 9);
                    assert(gy * gy > 64) by (nonlinear_arith) requires gy >= 9;
                } else {
                    assert(gx >= 9);
                    assert(gx * gx > 64) by (nonlinear_arith) requires gx >= 9;
                }
            }
        }
    }
    let ghost m0 = *m;
    let mut cy = lo_y;
    while cy < hi_y
        invariant
            m.wf(),
            m0.wf(),
            m.width == m0.width,
            m.height == m0.height,
            n == fps@.len(),
            n == buildings@.len(),
            lo_y <= cy <= hi_y,
            lo_x <= hi_x,
            forall|x: int, y: int| (y >= hi_y || y < lo_y || x < lo_x || x >= hi_x) ==> !#[trigger] near_settlement(library, buildings@, x, y),
            *old(m) == m0,
            lo_x == min_x - 9,
            lo_y == min_y - 9,
            hi_x == max_x + 9,
            hi_y == max_y + 9,
            -0x2000_0000 <= min_x <= 0x2000_0000,
            -0x2000_0000 <= min_y <= 0x2000_0000,
            -0x2000_0000 <= max_x <= 0x6000_0000,
            -0x2000_0000 <= max_y <= 0x6000_0000,
            forall|j: int| 0 <= j < n ==> {
                let f = #[trigger] fps@[j];
                &&& (f.0 as int, f.1 as int, f.2 as int, f.3 as int) == footprint(library, buildings@[j])
                &&& -0x2000_0000 <= f.0 <= 0x2000_0000
                &&& -0x2000_0000 <= f.1 <= 0x2000_0000
                &&& 0 <= f.2 <= 0x4000_0000
                &&& 0 <= f.3 <= 0x4000_0000
                &&& min_x <= f.0 && min_y <= f.1 && f.0 + f.2 <= max_x && f.1 + f.3 <= max_y
            },
            forall|x: int, y: int| on_map(&m0, x, y) ==> cleared(
                m0.tile_at(x, y),
                #[trigger] m.tile_at(x, y),
                y < cy && near_settlement(library, buildings@, x, y),
            ),
        decreases hi_y - cy,
    {
        let mut cx = lo_x;
        while cx < hi_x
            invariant
                m.wf(),
                m0.wf(),
                m.width == m0.width,
                m.height == m0.height,
                n == fps@.len(),
                n == buildings@.len(),
                lo_y <= cy < hi_y,
                lo_x <= cx <= hi_x,
                forall|x: int, y: int| (y >= hi_y || y < lo_y || x < lo_x || x >= hi_x) ==> !#[trigger] near_settlement(library, buildings@, x, y),
                lo_x == min_x - 9,
                hi_x == max_x + 9,
                hi_y == max_y + 9,
                -0x2000_0000 <= min_x <= 0x2000_0000,
                -0x2000_0000 <= min_y <= 0x2000_0000,
                -0x2000_0000 <= max_x <= 0x6000_0000,
                -0x2000_0000 <= max_y <= 0x6000_0000,
                lo_y == min_y - 9,
                forall|j: int| 0 <= j < n ==> {
                    let f = #[trigger] fps@[j];
                    &&& (f.0 as int, f.1 as int, f.2 as int, f.3 as int) == footprint(library, buildings@[j])
                    &&& -0x2000_0000 <= f.0 <= 0x2000_0000
                    &&& -0x2000_0000 <= f.1 <= 0x2000_0000
                    &&& 0 <= f.2 <= 0x4000_0000
                    &&& 0 <= f.3 <= 0x4000_0000
                    &&& min_x <= f.0 && min_y <= f.1 && f.0 + f.2 <= max_x && f.1 + f.3 <= max_y
                },
                forall|x: int, y: int| on_map(&m0, x, y) ==> cleared(
                    m0.tile_at(x, y),
                    #[trigger] m.tile_at(x, y),
                    (y < cy || (y == cy && x < cx)) && near_settlement(library, buildings@, x, y),
                ),
            decreases hi_x - cx,
        {
            if cx >= 0 && cy >= 0 && (cx as usize) < m.width && (cy as usize) < m.height && m.get_tile(cx, cy).is_wall() {
                let mut any = false;
                let mut j: usize = 0;
                while j < n
                    invariant
                        n == fps@.len(),
                        n == buildings@.len(),
                        j <= n,
                        forall|t: int| 0 <= t < n ==> {
                            let f = #[trigger] fps@[t];
                            &&& (f.0 as int, f.1 as int, f.2 as int, f.3 as int) == footprint(library, buildings@[t])
                            &&& -0x2000_0000 <= f.0 <= 0x2000_0000
                            &&& -0x2000_0000 <= f.1 <= 0x2000_0000
                            &&& 0 <= f.2 <= 0x4000_0000
                            &&& 0 <= f.3 <= 0x4000_0000
                        },
                        any == exists|t: int| 0 <= t < j && near(#[trigger] footprint(library, buildings@[t]), cx as int, cy as int),
                    decreases n - j,
                {
                    let f = fps[j];
                    if near_exec(f, cx, cy) {
                        any = true;
                    }
                    proof {
                        assert(fps@[j as int] == f);
                    }
                    j = j + 1;
                }
                if any {
                    let ghost m1 = *m;
                    let t = floor_tile("dry_soil");
                    m.set_tile(cx as usize, cy as usize, t);
                    proof {
                        lemma_set_keeps_others(&m1, m, cx as int, cy as int, t);
                    }
                }
            } else {
                proof {
                    if cx >= 0 && cy >= 0 && (cx as usize) < m.width && (cy as usize) < m.height {
                        assert(!(m.tile_at(cx as int, cy as int) is Wall));
                    }
                }
            }
            cx = cx + 1;
        }
        cy = cy + 1;
    }

}

/// `v` lies between `a` (included) and `b` (excluded), in either direction.
pub open spec fn between(v: int, a: int, b: int) -> bool {
    (a <= v < b) || (b < v <= a)
}

/// The cell is on the L-shaped walk from `from` to `to`: along the start
/// row to the end column, then down the end column to the end row, the end
/// itself excluded.
pub open spec fn on_walk(from: (i32, i32), to: (i32, i32), x: int, y: int) -> bool {
    (y == from.1 && between(x, from.0 as int, to.0 as int)) || (x == to.0 && between(y, from.1 as int, to.1 as int))
}

/// Painting a path: dry soil on the walk becomes a dirt path.
pub open spec fn pathed(old_t: Tile, new_t: Tile, on: bool) -> bool {
    if on && is_floor_named(old_t, "dry_soil"@) {
        is_floor_named(new_t, "dirt_path"@)
    } else {
        new_t == old_t
    }
}

fn is_dry_soil(t: &Tile) -> (b: bool)
    ensures
        b == is_floor_named(*t, "dry_soil"@),
{
    match t {
        Tile::Floor { id } => *id == String::from_str("dry_soil"),
        _ => false,
    }
}

/// Paint dry soil along the L-shaped walk from `from` to `to` as a dirt
/// path; indoor floors and everything else are left alone.
pub fn paint_path(m: &mut TileMap, from: (i32, i32), to: (i32, i32))
    requires
        old(m).wf(),
    ensures
        final(m).wf(),
        final(m).width == old(m).width,
        final(m).height == old(m).height,
        forall|x: int, y: int| on_map(old(m), x, y) ==> pathed(old(m).tile_at(x, y), #[trigger] final(m).tile_at(x, y), on_walk(from, to, x, y)),
{
    let ghost m0 = *m;
    let mut x = from.0;
    let y = from.1;
    while x != to.0
        invariant
            m.wf(),
            m0.wf(),
            m.width == m0.width,
            m.height == m0.height,
            between(x as int, from.0 as int, to.0 as int) || x == to.0,
            forall|a: int, b: int| on_map(&m0, a, b) ==> pathed(m0.tile_at(a, b), #[trigger] m.tile_at(a, b),
                b == y && between(a, from.0 as int, to.0 as int) && !between(a, x as int, to.0 as int)),
        decreases if to.0 > x { to.0 - x } else { x - to.0 },
    {
        if x >= 0 && y >= 0 && (x as usize) < m.width && (y as usize) < m.height {
            if is_dry_soil(m.get_tile(x, y)) {
                let ghost m1 = *m;
                let t = floor_tile("dirt_path");
                m.set_tile(x as usize, y as usize, t);
                proof {
                    lemma_set_keeps_others(&m1, m, x as int, y as int, t);
                }
            }
        }
        x = if to.0 > x { x + 1 } else { x - 1 };
    }
    let mut y = from.1;
    while y != to.1
        invariant
            m.wf(),
            m0.wf(),
            m.width == m0.width,
            m.height == m0.height,
            x == to.0,
            between(y as int, from.1 as int, to.1 as int) || y == to.1,
            forall|a: int, b: int| on_map(&m0, a, b) ==> pathed(m0.tile_at(a, b), #[trigger] m.tile_at(a, b),
                (b == from.1 && between(a, from.0 as int, to.0 as int)) || (a == to.0 && between(b, from.1 as int, to.1 as int)
                && !between(b, y as int, to.1 as int))),
        decreases if to.1 > y { to.1 - y } else { y - to.1 },
    {
        if x >= 0 && y >= 0 && (x as usize) < m.width && (y as usize) < m.height {
            if is_dry_soil(m.get_tile(x, y)) {
                let ghost m1 = *m;
                let t = floor_tile("dirt_path");
                m.set_tile(x as usize, y as usize, t);
                proof {
                    lemma_set_keeps_others(&m1, m, x as int, y as int, t);
                }
            }
        }
        y = if to.1 > y { y + 1 } else { y - 1 };
    }
}

proof fn lemma_some_false(c: Seq<bool>, k: int)
    requires
        0 <= k < c.len(),
        !c[k],
    ensures
        count_false(c) >= 1,
    decreases c.len(),
{
    if k < c.len() - 1 {
        lemma_some_false(c.drop_last(), k);
    }
}

/// The edges the greedy pass keeps from `es`, in order: each edge whose
/// ends the edges kept before it do not yet link.
pub open spec fn kept_links(es: Seq<(usize, usize)>) -> Seq<(usize, usize)>
    decreases es.len(),
{
    if es.len() == 0 {
        Seq::empty()
    } else {
        let k = kept_links(es.drop_last());
        let e = es.last();
        if linked(k, e.0 as int, e.1 as int) {
            k
        } else {
            k.push(e)
        }
    }
}

/// The edges the greedy pass passes over, in order: each edge whose ends
/// the edges kept before it already link.
pub open spec fn passed_links(es: Seq<(usize, usize)>) -> Seq<(usize, usize)>
    decreases es.len(),
{
    if es.len() == 0 {
        Seq::empty()
    } else {
        let p = passed_links(es.drop_last());
        let e = es.last();
        if linked(kept_links(es.drop_last()), e.0 as int, e.1 as int) {
            p.push(e)
        } else {
            p
        }
    }
}

/// How many passed edges close loops among `n` buildings: a fifth of them,
/// as far as there are passed edges.
pub open spec fn loop_count(n: int, passed: nat) -> int {
    if n / 5 < passed { n / 5 } else { passed as int }
}

/// The road links: the kept edges, then the first passed edges, as many as
/// `loop_count` says.
pub open spec fn road_plan(n: int, es: Seq<(usize, usize)>) -> Seq<(usize, usize)> {
    kept_links(es) + passed_links(es).take(loop_count(n, passed_links(es).len()))
}

/// The kept edges link exactly what all the edges link, and the ends of
/// every passed edge are linked by the kept ones.
pub proof fn lemma_kept_spans(es: Seq<(usize, usize)>)
    ensures
        forall|x: int, y: int| #[trigger] linked(kept_links(es), x, y) <==> linked(es, x, y),
        forall|t: int| 0 <= t < passed_links(es).len() ==> linked(
            kept_links(es),
            (#[trigger] passed_links(es)[t]).0 as int,
            passed_links(es)[t].1 as int,
        ),
    decreases es.len(),
{
    if es.len() == 0 {
        assert(kept_links(es) =~= es);
    } else {
        let d = es.drop_last();
        let e = es.last();
        let kd = kept_links(d);
        let pd = passed_links(d);
        lemma_kept_spans(d);
        assert(es =~= d.push(e));
        if linked(kd, e.0 as int, e.1 as int) {
            assert(linked(d, e.0 as int, e.1 as int));
            lemma_redundant_edge(d, e);
            assert forall|x: int, y: int| #[trigger] linked(kept_links(es), x, y) <==> linked(es, x, y) by {
                assert(linked(d.push(e), x, y) <==> linked(d, x, y));
                assert(linked(kd, x, y) <==> linked(d, x, y));
            }
            assert forall|t: int| 0 <= t < passed_links(es).len() implies linked(
                kept_links(es),
                (#[trigger] passed_links(es)[t]).0 as int,
                passed_links(es)[t].1 as int,
            ) by {
                if t < pd.len() {
                    assert(passed_links(es)[t] == pd[t]);
                }
            }
        } else {
            let ke = kd.push(e);
            assert forall|x: int, y: int| #[trigger] linked(kept_links(es), x, y) <==> linked(es, x, y) by {
                lemma_linked_push(kd, e, x, y);
                lemma_linked_push(d, e, x, y);
                assert(linked(kd, x, y) <==> linked(d, x, y));
                assert(linked(kd, x, e.0 as int) <==> linked(d, x, e.0 as int));
                assert(linked(kd, x, e.1 as int) <==> linked(d, x, e.1 as int));
                assert(linked(kd, e.0 as int, y) <==> linked(d, e.0 as int, y));
                assert(linked(kd, e.1 as int, y) <==> linked(d, e.1 as int, y));
            }
            assert forall|k: int| 0 <= k < kd.len() implies ke.contains(#[trigger] kd[k]) by {
                assert(ke[k] == kd[k]);
            }
            assert forall|t: int| 0 <= t < passed_links(es).len() implies linked(
                kept_links(es),
                (#[trigger] passed_links(es)[t]).0 as int,
                passed_links(es)[t].1 as int,
            ) by {
                assert(passed_links(es)[t] == pd[t]);
                lemma_linked_mono(kd, ke, pd[t].0 as int, pd[t].1 as int);
            }
        }
    }
}

/// Edges whose ends are already linked add no links.
pub proof fn lemma_redundant_extend(base: Seq<(usize, usize)>, more: Seq<(usize, usize)>)
    requires
        forall|t: int| 0 <= t < more.len() ==> linked(base, (#[trigger] more[t]).0 as int, more[t].1 as int),
    ensures
        forall|x: int, y: int| #[trigger] linked(base + more, x, y) <==> linked(base, x, y),
    decreases more.len(),
{
    if more.len() == 0 {
        assert(base + more =~= base);
    } else {
        let d = more.drop_last();
        let e = more.last();
        assert forall|t: int| 0 <= t < d.len() implies linked(base, (#[trigger] d[t]).0 as int, d[t].1 as int) by {
            assert(d[t] == more[t]);
        }
        lemma_redundant_extend(base, d);
        assert(base + more =~= (base + d).push(e));
        assert(linked(base, e.0 as int, e.1 as int));
        assert(linked(base + d, e.0 as int, e.1 as int));
        lemma_redundant_edge(base + d, e);
        assert forall|x: int, y: int| #[trigger] linked(base + more, x, y) <==> linked(base, x, y) by {
            assert(linked((base + d).push(e), x, y) <==> linked(base + d, x, y));
            assert(linked(base + d, x, y) <==> linked(base, x, y));
        }
    }
}

/// The road links join two buildings exactly when the candidate edges do.
pub proof fn law_road_plan_spans(n: int, es: Seq<(usize, usize)>, x: int, y: int)
    requires
        n >= 0,
    ensures
        linked(road_plan(n, es), x, y) <==> linked(es, x, y),
{
    lemma_kept_spans(es);
    let p = passed_links(es);
    let more = p.take(loop_count(n, p.len()));
    assert forall|t: int| 0 <= t < more.len() implies linked(kept_links(es), (#[trigger] more[t]).0 as int, more[t].1 as int) by {
        assert(more[t] == p[t]);
    }
    lemma_redundant_extend(kept_links(es), more);
    assert(linked(kept_links(es) + more, x, y) <==> linked(kept_links(es), x, y));
}

/// The greedy pass over the first `e + 1` edges.
proof fn lemma_plan_step(es: Seq<(usize, usize)>, e: int)
    requires
        0 <= e < es.len(),
    ensures
        kept_links(es.take(e + 1)) == (if linked(kept_links(es.take(e)), es[e].0 as int, es[e].1 as int) {
            kept_links(es.take(e))
        } else {
            kept_links(es.take(e)).push(es[e])
        }),
        passed_links(es.take(e + 1)) == (if linked(kept_links(es.take(e)), es[e].0 as int, es[e].1 as int) {
            passed_links(es.take(e)).push(es[e])
        } else {
            passed_links(es.take(e))
        }),
{
    assert(es.take(e + 1).drop_last() =~= es.take(e));
    assert(es.take(e + 1).last() == es[e]);
}

/// The links to draw roads along, taken from `edges` in the given order: an
/// edge joining two groups of buildings not yet linked joins them; after all
/// joining edges come the first `n / 5` of the others, closing loops.
pub fn road_links(n: usize, edges: &Vec<(usize, usize)>) -> (links: Vec<(usize, usize)>)
    requires
        n >= 1,
        forall|e: int| 0 <= e < edges@.len() ==> (#[trigger] edges@[e]).0 < n && edges@[e].1 < n,
    ensures
        links@ == road_plan(n as int, edges@),
        links@.len() <= (n - 1) + n / 5,
{
    let mut parent: Vec<usize> = Vec::new();
    let mut i: usize = 0;
    while i < n
        invariant
            i <= n,
            parent@.len() == i,
            forall|y: int| 0 <= y < i ==> parent@[y] == y,
        decreases n - i,
    {
        parent.push(i);
        i = i + 1;
    }
    let ghost mut rank: Seq<nat> = Seq::new(n as nat, |y: int| 0nat);
    let ghost mut merged: Seq<bool> = Seq::new(n as nat, |y: int| false);
    let mut mst: Vec<(usize, usize)> = Vec::new();
    let mut extras: Vec<(usize, usize)> = Vec::new();
    proof {
        assert forall|k: int| 0 <= k <= n implies count_false(#[trigger] merged.subrange(0, k)) == k by {
            lemma_count_all_false(merged, k);
        }
        assert(merged.subrange(0, n as int) =~= merged);
        assert forall|x: int, y: int| 0 <= x < n && 0 <= y < n implies (root(parent@, rank, 0, x) == root(parent@, rank, 0, y)
            <==> #[trigger] linked(mst@, x, y)) by {
            if linked(mst@, x, y) {
                let p = choose|p: Seq<int>| #[trigger] is_walk(mst@, p) && p[0] == x && p[p.len() - 1] == y;
                if p.len() > 1 {
                    assert(joins(mst@, p[0], p[1]));
                }
            }
            if x == y {
                lemma_linked_refl(mst@, x);
            }
        }
        assert(edges@.take(0) =~= Seq::<(usize, usize)>::empty());
        assert(kept_links(edges@.take(0)) =~= mst@);
        assert(passed_links(edges@.take(0)) =~= extras@);
    }
    let mut e: usize = 0;
    while e < edges.len()
        invariant
            n >= 1,
            e <= edges@.len(),
            forall|t: int| 0 <= t < edges@.len() ==> (#[trigger] edges@[t]).0 < n && edges@[t].1 < n,
            forest(parent@, rank, n as int, mst@.len() as nat),
            roots_match(parent@, rank, mst@.len() as nat, mst@, n as int),
            mst@ == kept_links(edges@.take(e as int)),
            extras@ == passed_links(edges@.take(e as int)),
            merged.len() == n,
            forall|y: int| 0 <= y < n ==> (#[trigger] merged[y]) == (parent@[y] != y),
            mst@.len() + count_false(merged) == n,
            count_false(merged) >= 1,
        decreases edges@.len() - e,
    {
        let (a, b) = edges[e];
        let ghost bound = mst@.len() as nat;
        let pi = find_root(&parent, a, Ghost(rank), Ghost(bound));
        let pj = find_root(&parent, b, Ghost(rank), Ghost(bound));
        proof {
            lemma_plan_step(edges@, e as int);
            lemma_root(parent@, rank, bound, a as int);
            lemma_root(parent@, rank, bound, b as int);
            assert(linked(mst@, a as int, b as int) == (pi == pj));
        }
        if pi != pj {
            let ghost old_parent = parent@;
            let ghost old_rank = rank;
            let ghost old_merged = merged;
            let ghost old_mst = mst@;
            proof {
                lemma_join(old_parent, old_rank, bound, old_mst, n as int, a, b);
                lemma_union(old_parent, old_rank, bound, pi as int, pj as int, 0);
            }
            parent.set(pi, pj);
            proof {
                rank = old_rank.update(pj as int, merged_rank(old_rank, pi as int, pj as int));
                merged = old_merged.update(pi as int, true);
                lemma_count_false_update(old_merged, pi as int);
                lemma_some_false(merged, pj as int);
            }
            mst.push((a, b));
        } else {
            extras.push((a, b));
        }
        e = e + 1;
    }
    proof {
        assert(edges@.take(edges@.len() as int) =~= edges@);
    }
    let loops = if n / 5 < extras.len() { n / 5 } else { extras.len() };
    let ghost base = mst@;
    let mut links = mst;
    let mut k: usize = 0;
    while k < loops
        invariant
            k <= loops,
            loops <= extras@.len(),
            loops <= n / 5,
            base.len() <= n - 1,
            links@ == base + extras@.take(k as int),
        decreases loops - k,
    {
        links.push(extras[k]);
        proof {
            assert(extras@.take(k + 1) =~= extras@.take(k as int).push(extras@[k as int]));
            assert(base + extras@.take(k + 1) =~= (base + extras@.take(k as int)).push(extras@[k as int]));
        }
        k = k + 1;
    }
    links
}

proof fn lemma_count_all_false(c: Seq<bool>, k: int)
    requires
        0 <= k <= c.len(),
        forall|y: int| 0 <= y < c.len() ==> !c[y],
    ensures
        count_false(c.subrange(0, k)) == k,
    decreases k,
{
    if k > 0 {
        lemma_count_all_false(c, k - 1);
        assert(c.subrange(0, k).drop_last() =~= c.subrange(0, k - 1));
    }
}

/// The side a building's entrance faces: its structure's entrance side
/// ("south" when unknown, "any" meaning south), turned with the building.
pub open spec fn entrance_side_of(lib: &StructureLibrary, b: Building) -> Seq<char> {
    let natural = match position_of(lib.structures@, b.prefab_name@) {
        Some(k) => match lib.structures@[k].metadata.entrance_side {
            Some(side) => side@,
            None => "south"@,
        },
        None => "south"@,
    };
    if natural == "any"@ {
        "south"@
    } else {
        side_name((side_index(natural) + b.rotation / 90) % 4)
    }
}

/// The cell in front of which a building's road starts: the middle of the
/// entrance side of its turned footprint.
pub open spec fn entrance_of(lib: &StructureLibrary, b: Building) -> (int, int) {
    let f = footprint(lib, b);
    let side = entrance_side_of(lib, b);
    if side == "north"@ {
        (f.0 + f.2 / 2, f.1)
    } else if side == "east"@ {
        (f.0 + f.2 - 1, f.1 + f.3 / 2)
    } else if side == "west"@ {
        (f.0, f.1 + f.3 / 2)
    } else {
        (f.0 + f.2 / 2, f.1 + f.3 - 1)
    }
}

/// The entrance cell of each building, in order.
pub fn building_entrances(buildings: &Vec<Building>, library: &StructureLibrary) -> (es: Vec<(i32, i32)>)
    requires
        library_stampable(library),
        forall|i: int| 0 <= i < buildings@.len() ==> -0x2000_0000 <= (#[trigger] buildings@[i]).x <= 0x2000_0000
            && -0x2000_0000 <= buildings@[i].y <= 0x2000_0000,
    ensures
        es@.len() == buildings@.len(),
        forall|i: int| 0 <= i < es@.len() ==> ((#[trigger] es@[i]).0 as int, es@[i].1 as int) == entrance_of(library, buildings@[i]),
{
    let mut es: Vec<(i32, i32)> = Vec::new();
    let mut i: usize = 0;
    while i < buildings.len()
        invariant
            library_stampable(library),
            i <= buildings@.len(),
            forall|j: int| 0 <= j < buildings@.len() ==> -0x2000_0000 <= (#[trigger] buildings@[j]).x <= 0x2000_0000
                && -0x2000_0000 <= buildings@[j].y <= 0x2000_0000,
            es@.len() == i,
            forall|j: int| 0 <= j < i ==> ((#[trigger] es@[j]).0 as int, es@[j].1 as int) == entrance_of(library, buildings@[j]),
        decreases buildings@.len() - i,
    {
        let b = &buildings[i];
        let f = footprint_exec(library, b);
        let natural: String = match library.get(b.prefab_name.as_str()) {
            Some(st) => match &st.metadata.entrance_side {
                Some(side) => side.clone(),
                None => String::from_str("south"),
            },
            None => String::from_str("south"),
        };
        let side: String = if natural == String::from_str("any") {
            String::from_str("south")
        } else {
            String::from_str(rotated_side(natural.as_str(), b.rotation))
        };
        let e = if side == String::from_str("north") {
            (f.0 + f.2 / 2, f.1)
        } else if side == String::from_str("east") {
            (f.0 + f.2 - 1, f.1 + f.3 / 2)
        } else if side == String::from_str("west") {
            (f.0, f.1 + f.3 / 2)
        } else {
            (f.0 + f.2 / 2, f.1 + f.3 - 1)
        };
        proof {
            assert(side@ == entrance_side_of(library, *b));
        }
        es.push(e);
        i = i + 1;
    }
    es
}

/// The cell is on the walk of one of the first `n` links.
pub open spec fn on_some_walk(entrances: Seq<(i32, i32)>, links: Seq<(usize, usize)>, n: int, x: int, y: int) -> bool {
    exists|k: int| 0 <= k < n && #[trigger] on_walk(entrances[links[k].0 as int], entrances[links[k].1 as int], x, y)
}

/// Paint a dirt path between the entrances of each linked pair, in order:
/// dry soil on any of the walks becomes a dirt path, and nothing else changes.
pub fn paint_links(m: &mut TileMap, entrances: &Vec<(i32, i32)>, links: &Vec<(usize, usize)>)
    requires
        old(m).wf(),
        forall|k: int| 0 <= k < links@.len() ==> (#[trigger] links@[k]).0 < entrances@.len() && links@[k].1 < entrances@.len(),
    ensures
        final(m).wf(),
        final(m).width == old(m).width,
        final(m).height == old(m).height,
        forall|x: int, y: int| on_map(old(m), x, y) ==> pathed(old(m).tile_at(x, y), #[trigger] final(m).tile_at(x, y),
            on_some_walk(entrances@, links@, links@.len() as int, x, y)),
{
    let ghost m0 = *m;
    let mut k: usize = 0;
    while k < links.len()
        invariant
            m.wf(),
            m0.wf(),
            m.width == m0.width,
            m.height == m0.height,
            *old(m) == m0,
            k <= links@.len(),
            forall|q: int| 0 <= q < links@.len() ==> (#[trigger] links@[q]).0 < entrances@.len() && links@[q].1 < entrances@.len(),
            forall|x: int, y: int| on_map(&m0, x, y) ==> pathed(m0.tile_at(x, y), #[trigger] m.tile_at(x, y),
                on_some_walk(entrances@, links@, k as int, x, y)),
        decreases links@.len() - k,
    {
        let (i, j) = links[k];
        let ghost mk = *m;
        paint_path(m, entrances[i], entrances[j]);
        proof {
            assert forall|x: int, y: int| on_map(&m0, x, y) implies pathed(m0.tile_at(x, y), #[trigger] m.tile_at(x, y),
                on_some_walk(entrances@, links@, k + 1, x, y)) by {
                assert(on_map(&mk, x, y));
                let w = on_walk(entrances@[links@[k as int].0 as int], entrances@[links@[k as int].1 as int], x, y);
                if on_some_walk(entrances@, links@, k as int, x, y) {
                    let q = choose|q: int| 0 <= q < k && #[trigger] on_walk(entrances@[links@[q].0 as int], entrances@[links@[q].1 as int], x, y);
                    assert(on_some_walk(entrances@, links@, k + 1, x, y));
                }
                if w {
                    assert(on_some_walk(entrances@, links@, k + 1, x, y));
                }
                if !on_some_walk(entrances@, links@, k as int, x, y) && !w {
                    assert(!on_some_walk(entrances@, links@, k + 1, x, y)) by {
                        if on_some_walk(entrances@, links@, k + 1, x, y) {
                            let q = choose|q: int| 0 <= q < k + 1 && #[trigger] on_walk(entrances@[links@[q].0 as int], entrances@[links@[q].1 as int], x, y);
                            if q < k {
                                assert(on_some_walk(entrances@, links@, k as int, x, y));
                            }
                        }
                    }
                }
            }
        }
        k = k + 1;
    }
}

} // verus!
