//! Layered map generation: each layer runs one simple algorithm on a fresh
//! stone map, and the layers are blended one after another onto a result that
//! starts as solid stone.
//!
//! Probabilities are carried in millionths: a draw `r` from `0..1_000_000`
//! passes a chance of `p` millionths when `r < p`.

use vstd::prelude::*;
use rand_chacha::ChaCha8Rng;
use crate::connectivity::abs_int;
use crate::map::{
    TileMap, Tile, MAP_WIDTH, MAP_HEIGHT, cell_index, is_floor_named, is_wall_named, floor_tile,
    wall_tile, lemma_cell_index_bounds, lemma_set_tile_frame,
};
use crate::rng::{gen_range_u32, gen_range_usize, gen_range_incl_usize, seeded_rng};

verus! {

/// One million: the scale of the chances below.
pub const CHANCE_SCALE: u32 = 1_000_000;

/// The tile is a stone floor.
pub open spec fn stone_floor(t: Tile) -> bool {
    is_floor_named(t, "stone"@)
}

/// The tile is a stone wall with 100 hit points.
pub open spec fn stone_wall(t: Tile) -> bool {
    is_wall_named(t, "stone"@, 100)
}

/// The cell lies on the standard play area.
pub open spec fn on_grid(x: int, y: int) -> bool {
    0 <= x < MAP_WIDTH && 0 <= y < MAP_HEIGHT
}

/// The cell lies inside the one-cell border of the play area.
pub open spec fn interior(x: int, y: int) -> bool {
    1 <= x < MAP_WIDTH - 1 && 1 <= y < MAP_HEIGHT - 1
}

/// The map is a well-formed map of the standard size.
pub open spec fn layer_shaped(m: TileMap) -> bool {
    m.wf() && m.width == MAP_WIDTH && m.height == MAP_HEIGHT
}

/// Every cell holds a stone floor or a stone wall.
pub open spec fn all_stone(m: TileMap) -> bool {
    forall|x: int, y: int| on_grid(x, y) ==> stone_floor(#[trigger] m.tile_at(x, y)) || stone_wall(m.tile_at(x, y))
}

/// Every cell holds a stone wall.
pub open spec fn solid_stone(m: TileMap) -> bool {
    forall|x: int, y: int| on_grid(x, y) ==> stone_wall(#[trigger] m.tile_at(x, y))
}

/// Every border cell holds a stone wall.
pub open spec fn walled_border(m: TileMap) -> bool {
    forall|x: int, y: int| on_grid(x, y) && !interior(x, y) ==> stone_wall(#[trigger] m.tile_at(x, y))
}

/// The new map has the standard size, and each of its cells holds either the
/// old tile or a stone floor: carving only ever adds floor.
pub open spec fn floors_added(old_m: TileMap, new_m: TileMap) -> bool {
    &&& layer_shaped(new_m)
    &&& forall|x: int, y: int| on_grid(x, y) ==> (#[trigger] new_m.tile_at(x, y) == old_m.tile_at(x, y)
        || stone_floor(new_m.tile_at(x, y)))
}

/// Cells on the border are unchanged.
pub open spec fn border_kept(old_m: TileMap, new_m: TileMap) -> bool {
    forall|x: int, y: int| on_grid(x, y) && !interior(x, y) ==> #[trigger] new_m.tile_at(x, y) == old_m.tile_at(x, y)
}

/// A map of the standard size filled with stone walls.
pub fn stone_layer() -> (m: TileMap)
    ensures
        layer_shaped(m),
        solid_stone(m),
{
    let m = TileMap::new(MAP_WIDTH, MAP_HEIGHT);
    assert forall|x: int, y: int| on_grid(x, y) implies stone_wall(#[trigger] m.tile_at(x, y)) by {
        lemma_cell_index_bounds(MAP_WIDTH as int, MAP_HEIGHT as int, x, y);
    }
    m
}

/// Make one cell a stone floor.
fn carve(m: &mut TileMap, x: usize, y: usize)
    requires
        old(m).wf(),
        x < old(m).width,
        y < old(m).height,
    ensures
        final(m).wf(),
        final(m).width == old(m).width,
        final(m).height == old(m).height,
        stone_floor(final(m).tile_at(x as int, y as int)),
        forall|a: int, b: int| old(m).in_bounds_spec(a, b) && (a != x || b != y)
            ==> #[trigger] final(m).tile_at(a, b) == old(m).tile_at(a, b),
{
    let ghost m1 = *m;
    let t = floor_tile("stone");
    m.set_tile(x, y, t);
    proof {
        lemma_set_tile_frame(&m1, m, x as int, y as int, t);
    }
}

/// The cell lies in the rectangle from `(x0, y0)`, `w` across and `h` down.
pub open spec fn in_rect(x: int, y: int, x0: int, y0: int, w: int, h: int) -> bool {
    x0 <= x < x0 + w && y0 <= y < y0 + h
}

/// Turn every cell of a rectangle inside the map into stone floor.
pub fn carve_rect(m: &mut TileMap, x0: usize, y0: usize, w: usize, h: usize)
    requires
        old(m).wf(),
        x0 + w <= old(m).width,
        y0 + h <= old(m).height,
    ensures
        final(m).wf(),
        final(m).width == old(m).width,
        final(m).height == old(m).height,
        forall|x: int, y: int| #![trigger final(m).tile_at(x, y)] old(m).in_bounds_spec(x, y) ==> if in_rect(
            x,
            y,
            x0 as int,
            y0 as int,
            w as int,
            h as int,
        ) {
            stone_floor(final(m).tile_at(x, y))
        } else {
            final(m).tile_at(x, y) == old(m).tile_at(x, y)
        },
{
    let ghost m0 = *m;
    let mut ry = y0;
    while ry < y0 + h
        invariant
            m.wf(),
            m0.wf(),
            m.width == m0.width,
            m.height == m0.height,
            y0 <= ry <= y0 + h,
            x0 + w <= m0.width,
            y0 + h <= m0.height,
            forall|x: int, y: int| #![trigger m.tile_at(x, y)] m0.in_bounds_spec(x, y) ==> if in_rect(
                x,
                y,
                x0 as int,
                y0 as int,
                w as int,
                ry - y0,
            ) {
                stone_floor(m.tile_at(x, y))
            } else {
                m.tile_at(x, y) == m0.tile_at(x, y)
            },
        decreases y0 + h - ry,
    {
        let mut rx = x0;
        while rx < x0 + w
            invariant
                m.wf(),
                m0.wf(),
                m.width == m0.width,
                m.height == m0.height,
                y0 <= ry < y0 + h,
                x0 <= rx <= x0 + w,
                x0 + w <= m0.width,
                y0 + h <= m0.height,
                forall|x: int, y: int| #![trigger m.tile_at(x, y)] m0.in_bounds_spec(x, y) ==> if in_rect(
                    x,
                    y,
                    x0 as int,
                    y0 as int,
                    w as int,
                    ry - y0,
                ) || (y == ry && x0 <= x < rx) {
                    stone_floor(m.tile_at(x, y))
                } else {
                    m.tile_at(x, y) == m0.tile_at(x, y)
                },
            decreases x0 + w - rx,
        {
            carve(m, rx, ry);
            rx = rx + 1;
        }
        ry = ry + 1;
    }
}

/// Noise: each interior cell becomes stone floor unless a draw from
/// `0..1_000_000` falls below `wall_chance`; border cells are untouched.
pub fn scatter_floors(m: &mut TileMap, rng: &mut ChaCha8Rng, wall_chance: u32)
    requires
        layer_shaped(*old(m)),
    ensures
        floors_added(*old(m), *final(m)),
        border_kept(*old(m), *final(m)),
        wall_chance == 0 ==> forall|x: int, y: int| interior(x, y) ==> stone_floor(#[trigger] final(m).tile_at(x, y)),
        wall_chance >= CHANCE_SCALE ==> final(m).tiles@ == old(m).tiles@,
{
    let ghost m0 = *m;
    let mut y: usize = 1;
    while y < MAP_HEIGHT - 1
        invariant
            layer_shaped(*m),
            layer_shaped(m0),
            1 <= y <= MAP_HEIGHT - 1,
            floors_added(m0, *m),
            border_kept(m0, *m),
            wall_chance == 0 ==> forall|a: int, b: int| interior(a, b) && b < y ==> stone_floor(#[trigger] m.tile_at(a, b)),
            wall_chance >= CHANCE_SCALE ==> m.tiles@ == m0.tiles@,
        decreases MAP_HEIGHT - 1 - y,
    {
        let mut x: usize = 1;
        while x < MAP_WIDTH - 1
            invariant
                layer_shaped(*m),
                layer_shaped(m0),
                1 <= y < MAP_HEIGHT - 1,
                1 <= x <= MAP_WIDTH - 1,
                floors_added(m0, *m),
                border_kept(m0, *m),
                wall_chance == 0 ==> forall|a: int, b: int| interior(a, b) && (b < y || (b == y && a < x))
                    ==> stone_floor(#[trigger] m.tile_at(a, b)),
                wall_chance >= CHANCE_SCALE ==> m.tiles@ == m0.tiles@,
            decreases MAP_WIDTH - 1 - x,
        {
            let r = gen_range_u32(rng, 0, CHANCE_SCALE);
            if r >= wall_chance {
                carve(m, x, y);
            }
            x = x + 1;
        }
        y = y + 1;
    }
}

/// Some room of the list holds the cell.
pub open spec fn in_rooms(rooms: Seq<(int, int, int, int)>, x: int, y: int) -> bool {
    exists|j: int| 0 <= j < rooms.len() && #[trigger] in_rect(x, y, rooms[j].0, rooms[j].1, rooms[j].2, rooms[j].3)
}

/// A room as `place_rooms` draws it: 6 to 12 cells each way, clear of the
/// border by at least one cell.
pub open spec fn room_drawable(r: (int, int, int, int)) -> bool {
    &&& 6 <= r.2 <= 12
    &&& 6 <= r.3 <= 12
    &&& 1 <= r.0 && r.0 + r.2 < MAP_WIDTH - 1
    &&& 1 <= r.1 && r.1 + r.3 < MAP_HEIGHT - 1
}

/// Exactly the cells of the rooms became stone floor; the rest kept their
/// tiles.
pub open spec fn rooms_carved(m0: TileMap, m: TileMap, rooms: Seq<(int, int, int, int)>) -> bool {
    &&& layer_shaped(m)
    &&& forall|j: int| 0 <= j < rooms.len() ==> room_drawable(#[trigger] rooms[j])
    &&& forall|x: int, y: int| #![trigger m.tile_at(x, y)] on_grid(x, y) ==> if in_rooms(rooms, x, y) {
        stone_floor(m.tile_at(x, y))
    } else {
        m.tile_at(x, y) == m0.tile_at(x, y)
    }
}

proof fn lemma_in_rooms_push(rooms: Seq<(int, int, int, int)>, r: (int, int, int, int), x: int, y: int)
    ensures
        in_rooms(rooms.push(r), x, y) == (in_rooms(rooms, x, y) || in_rect(x, y, r.0, r.1, r.2, r.3)),
{
    let rs = rooms.push(r);
    if in_rooms(rooms, x, y) {
        let j = choose|j: int| 0 <= j < rooms.len() && #[trigger] in_rect(x, y, rooms[j].0, rooms[j].1, rooms[j].2, rooms[j].3);
        assert(rs[j] == rooms[j]);
        assert(in_rect(x, y, rs[j].0, rs[j].1, rs[j].2, rs[j].3));
    }
    if in_rect(x, y, r.0, r.1, r.2, r.3) {
        assert(rs[rooms.len() as int] == r);
        assert(in_rect(x, y, rs[rooms.len() as int].0, rs[rooms.len() as int].1, rs[rooms.len() as int].2, rs[rooms.len() as int].3));
    }
    if in_rooms(rs, x, y) {
        let j = choose|j: int| 0 <= j < rs.len() && #[trigger] in_rect(x, y, rs[j].0, rs[j].1, rs[j].2, rs[j].3);
        if j < rooms.len() {
            assert(rs[j] == rooms[j]);
            assert(in_rect(x, y, rooms[j].0, rooms[j].1, rooms[j].2, rooms[j].3));
        }
    }
}

/// Rooms: `count` times, a room of 6 to 12 cells each way is drawn at a
/// position that keeps it off the border, and carved.
pub fn place_rooms(m: &mut TileMap, rng: &mut ChaCha8Rng, count: u64)
    requires
        layer_shaped(*old(m)),
    ensures
        floors_added(*old(m), *final(m)),
        border_kept(*old(m), *final(m)),
        exists|rooms: Seq<(int, int, int, int)>| rooms.len() == count && #[trigger] rooms_carved(*old(m), *final(m), rooms),
{
    let ghost m0 = *m;
    let ghost mut rooms: Seq<(int, int, int, int)> = Seq::empty();
    let mut i: u64 = 0;
    while i < count
        invariant
            layer_shaped(*m),
            layer_shaped(m0),
            i <= count,
            floors_added(m0, *m),
            border_kept(m0, *m),
            rooms.len() == i,
            rooms_carved(m0, *m, rooms),
        decreases count - i,
    {
        let width = gen_range_incl_usize(rng, 6, 12);
        let height = gen_range_incl_usize(rng, 6, 12);
        let x = gen_range_usize(rng, 1, MAP_WIDTH - width - 1);
        let y = gen_range_usize(rng, 1, MAP_HEIGHT - height - 1);
        let ghost mp = *m;
        carve_rect(m, x, y, width, height);
        proof {
            let r = (x as int, y as int, width as int, height as int);
            let rs = rooms.push(r);
            assert forall|j: int| 0 <= j < rs.len() implies room_drawable(#[trigger] rs[j]) by {
                if j < rooms.len() {
                    assert(rs[j] == rooms[j]);
                }
            }
            assert forall|a: int, b: int| #![trigger m.tile_at(a, b)] on_grid(a, b) implies if in_rooms(rs, a, b) {
                stone_floor(m.tile_at(a, b))
            } else {
                m.tile_at(a, b) == m0.tile_at(a, b)
            } by {
                lemma_in_rooms_push(rooms, r, a, b);
                assert(mp.in_bounds_spec(a, b));
                assert(mp.tile_at(a, b) == mp.tile_at(a, b));
            }
            rooms = rs;
        }
        i = i + 1;
    }
    proof {
        assert(rooms_carved(m0, *m, rooms));
    }
}

/// Some walk of the list passes the cell.
pub open spec fn on_walks(walks: Seq<Seq<(int, int)>>, x: int, y: int) -> bool {
    exists|w: int, s: int| 0 <= w < walks.len() && 0 <= s < walks[w].len() && #[trigger] walks[w][s] == (x, y)
}

/// Two cells are the same or share an edge.
pub open spec fn step_apart(p: (int, int), q: (int, int)) -> bool {
    abs_int(p.0 - q.0) + abs_int(p.1 - q.1) <= 1
}

/// A walk over interior cells, each step to the same cell or a neighbour.
pub open spec fn walk_ok(p: Seq<(int, int)>) -> bool {
    &&& forall|s: int| 0 <= s < p.len() ==> interior((#[trigger] p[s]).0, p[s].1)
    &&& forall|s: int| 1 <= s < p.len() ==> step_apart(p[s - 1], #[trigger] p[s])
}

/// Exactly the cells the walks pass became stone floor; the rest kept
/// their tiles.
pub open spec fn walks_carved(m0: TileMap, m: TileMap, walks: Seq<Seq<(int, int)>>) -> bool {
    &&& layer_shaped(m)
    &&& forall|x: int, y: int| #![trigger m.tile_at(x, y)] on_grid(x, y) ==> if on_walks(walks, x, y) {
        stone_floor(m.tile_at(x, y))
    } else {
        m.tile_at(x, y) == m0.tile_at(x, y)
    }
}

proof fn lemma_on_walks_push(walks: Seq<Seq<(int, int)>>, cur: Seq<(int, int)>, q: (int, int), x: int, y: int)
    ensures
        on_walks(walks.push(cur.push(q)), x, y) == (on_walks(walks.push(cur), x, y) || (x, y) == q),
        on_walks(walks.push(Seq::empty()), x, y) == on_walks(walks, x, y),
{
    let a = walks.push(cur);
    let b = walks.push(cur.push(q));
    let n = walks.len() as int;
    if on_walks(a, x, y) {
        let (w, s) = choose|w: int, s: int| 0 <= w < a.len() && 0 <= s < a[w].len() && #[trigger] a[w][s] == (x, y);
        if w < n {
            assert(b[w] == a[w]);
        } else {
            assert(b[w][s] == cur.push(q)[s]);
        }
        assert(b[w][s] == (x, y));
    }
    if (x, y) == q {
        assert(b[n][cur.len() as int] == q);
    }
    if on_walks(b, x, y) {
        let (w, s) = choose|w: int, s: int| 0 <= w < b.len() && 0 <= s < b[w].len() && #[trigger] b[w][s] == (x, y);
        if w < n {
            assert(a[w] == b[w]);
            assert(a[w][s] == (x, y));
        } else if s < cur.len() {
            assert(a[w][s] == (x, y));
        }
    }
    let c = walks.push(Seq::<(int, int)>::empty());
    if on_walks(c, x, y) {
        let (w, s) = choose|w: int, s: int| 0 <= w < c.len() && 0 <= s < c[w].len() && #[trigger] c[w][s] == (x, y);
        assert(w < n);
        assert(walks[w][s] == (x, y));
    }
    if on_walks(walks, x, y) {
        let (w, s) = choose|w: int, s: int| 0 <= w < walks.len() && 0 <= s < walks[w].len() && #[trigger] walks[w][s] == (x, y);
        assert(c[w] == walks[w]);
        assert(c[w][s] == (x, y));
    }
}

/// Drunkard's walk: each of `walkers` walkers starts on a random interior cell
/// and, `steps` times, carves its cell and then tries one random orthogonal
/// step, which is skipped where it would reach the border.
pub fn walk_drunkards(m: &mut TileMap, rng: &mut ChaCha8Rng, walkers: u64, steps: u64)
    requires
        layer_shaped(*old(m)),
    ensures
        floors_added(*old(m), *final(m)),
        border_kept(*old(m), *final(m)),
        exists|walks: Seq<Seq<(int, int)>>| #[trigger] walks_carved(*old(m), *final(m), walks) && walks.len() == walkers && forall|w: int|
            0 <= w < walks.len() ==> (#[trigger] walks[w]).len() == steps && walk_ok(walks[w]),
{
    let ghost m0 = *m;
    let ghost mut walks: Seq<Seq<(int, int)>> = Seq::empty();
    let mut k: u64 = 0;
    while k < walkers
        invariant
            layer_shaped(*m),
            layer_shaped(m0),
            k <= walkers,
            floors_added(m0, *m),
            border_kept(m0, *m),
            walks.len() == k,
            walks_carved(m0, *m, walks),
            forall|w: int| 0 <= w < walks.len() ==> (#[trigger] walks[w]).len() == steps && walk_ok(walks[w]),
        decreases walkers - k,
    {
        let mut x = gen_range_usize(rng, 1, MAP_WIDTH - 1);
        let mut y = gen_range_usize(rng, 1, MAP_HEIGHT - 1);
        let ghost mut cur: Seq<(int, int)> = Seq::empty();
        proof {
            assert forall|a: int, b: int| #![trigger m.tile_at(a, b)] on_grid(a, b) implies if on_walks(walks.push(cur), a, b) {
                stone_floor(m.tile_at(a, b))
            } else {
                m.tile_at(a, b) == m0.tile_at(a, b)
            } by {
                lemma_on_walks_push(walks, cur, (0, 0), a, b);
            }
        }
        let mut s: u64 = 0;
        while s < steps
            invariant
                layer_shaped(*m),
                layer_shaped(m0),
                s <= steps,
                interior(x as int, y as int),
                floors_added(m0, *m),
                border_kept(m0, *m),
                cur.len() == s,
                walk_ok(cur),
                cur.len() > 0 ==> step_apart(cur.last(), (x as int, y as int)),
                walks_carved(m0, *m, walks.push(cur)),
                walks.len() == k,
                forall|w: int| 0 <= w < walks.len() ==> (#[trigger] walks[w]).len() == steps && walk_ok(walks[w]),
            decreases steps - s,
        {
            let ghost mp = *m;
            carve(m, x, y);
            proof {
                let q = (x as int, y as int);
                assert forall|a: int, b: int| #![trigger m.tile_at(a, b)] on_grid(a, b) implies if on_walks(walks.push(cur.push(q)), a, b) {
                    stone_floor(m.tile_at(a, b))
                } else {
                    m.tile_at(a, b) == m0.tile_at(a, b)
                } by {
                    lemma_on_walks_push(walks, cur, q, a, b);
                    assert(mp.in_bounds_spec(a, b));
                    assert(mp.tile_at(a, b) == mp.tile_at(a, b));
                }
                let c2 = cur.push(q);
                assert forall|t: int| 0 <= t < c2.len() implies interior((#[trigger] c2[t]).0, c2[t].1) by {
                    if t < cur.len() {
                        assert(c2[t] == cur[t]);
                    }
                }
                assert forall|t: int| 1 <= t < c2.len() implies step_apart(c2[t - 1], #[trigger] c2[t]) by {
                    if t < cur.len() {
                        assert(c2[t] == cur[t]);
                        assert(c2[t - 1] == cur[t - 1]);
                    } else {
                        assert(c2[t - 1] == cur.last());
                    }
                }
                cur = c2;
            }
            let d = gen_range_u32(rng, 0, 4);
            if d == 0 && x > 1 {
                x = x - 1;
            } else if d == 1 && x < MAP_WIDTH - 2 {
                x = x + 1;
            } else if d == 2 && y > 1 {
                y = y - 1;
            } else if d == 3 && y < MAP_HEIGHT - 2 {
                y = y + 1;
            }
            s = s + 1;
        }
        proof {
            let ws = walks.push(cur);
            assert forall|w: int| 0 <= w < ws.len() implies (#[trigger] ws[w]).len() == steps && walk_ok(ws[w]) by {
                if w < walks.len() {
                    assert(ws[w] == walks[w]);
                }
            }
            walks = ws;
        }
        k = k + 1;
    }
    proof {
        assert(walks_carved(m0, *m, walks));
    }
}

/// 1 where the cell holds a floor of any material, else 0.
pub open spec fn floor_count_of(m: TileMap, x: int, y: int) -> int {
    if m.tile_at(x, y) is Floor { 1 } else { 0 }
}

/// How many of the nine cells of the 3x3 block centred on `(x, y)` hold floor.
pub open spec fn floors_around(m: TileMap, x: int, y: int) -> int {
    floor_count_of(m, x - 1, y - 1) + floor_count_of(m, x, y - 1) + floor_count_of(m, x + 1, y - 1)
        + floor_count_of(m, x - 1, y) + floor_count_of(m, x, y) + floor_count_of(m, x + 1, y)
        + floor_count_of(m, x - 1, y + 1) + floor_count_of(m, x, y + 1) + floor_count_of(m, x + 1, y + 1)
}

/// 1 where the cell holds floor, read from the map.
fn floor_at(m: &TileMap, x: usize, y: usize) -> (c: u32)
    requires
        layer_shaped(*m),
        on_grid(x as int, y as int),
    ensures
        c == floor_count_of(*m, x as int, y as int),
{
    proof {
        lemma_cell_index_bounds(MAP_WIDTH as int, MAP_HEIGHT as int, x as int, y as int);
    }
    match &m.tiles[y * MAP_WIDTH + x] {
        Tile::Floor { .. } => 1,
        _ => 0,
    }
}

/// The smoothing rule at one interior cell.
pub open spec fn smoothed(m: TileMap, x: int, y: int, threshold: int) -> bool {
    floors_around(m, x, y) >= threshold
}

/// One smoothing pass: each interior cell becomes stone floor when at least
/// `threshold` cells of its 3x3 block (itself included) hold floor, and stone
/// wall otherwise; all counts are read from the map before the pass. Border
/// cells keep their tiles.
pub fn smooth_step(m: &TileMap, threshold: u32) -> (r: TileMap)
    requires
        layer_shaped(*m),
    ensures
        layer_shaped(r),
        forall|x: int, y: int| #![trigger r.tile_at(x, y)] on_grid(x, y) ==> if interior(x, y) {
            if smoothed(*m, x, y, threshold as int) {
                stone_floor(r.tile_at(x, y))
            } else {
                stone_wall(r.tile_at(x, y))
            }
        } else {
            r.tile_at(x, y) == m.tile_at(x, y)
        },
{
    let mut tiles: Vec<Tile> = Vec::new();
    let n = MAP_WIDTH * MAP_HEIGHT;
    let mut i: usize = 0;
    while i < n
        invariant
            layer_shaped(*m),
            n == MAP_WIDTH * MAP_HEIGHT,
            i <= n,
            tiles@.len() == i,
            forall|k: int| 0 <= k < i ==> #[trigger] tiles@[k] == m.tiles@[k],
        decreases n - i,
    {
        tiles.push(m.tiles[i].clone());
        i = i + 1;
    }
    let mut out = TileMap { width: MAP_WIDTH, height: MAP_HEIGHT, tiles };
    assert(out.tiles@ == m.tiles@);
    let mut y: usize = 1;
    while y < MAP_HEIGHT - 1
        invariant
            layer_shaped(*m),
            layer_shaped(out),
            1 <= y <= MAP_HEIGHT - 1,
            forall|a: int, b: int| #![trigger out.tile_at(a, b)] on_grid(a, b) ==> if interior(a, b) && b < y {
                if smoothed(*m, a, b, threshold as int) {
                    stone_floor(out.tile_at(a, b))
                } else {
                    stone_wall(out.tile_at(a, b))
                }
            } else {
                out.tile_at(a, b) == m.tile_at(a, b)
            },
        decreases MAP_HEIGHT - 1 - y,
    {
        let mut x: usize = 1;
        while x < MAP_WIDTH - 1
            invariant
                layer_shaped(*m),
                layer_shaped(out),
                1 <= y < MAP_HEIGHT - 1,
                1 <= x <= MAP_WIDTH - 1,
                forall|a: int, b: int| #![trigger out.tile_at(a, b)] on_grid(a, b) ==> if interior(a, b) && (b < y
                    || (b == y && a < x)) {
                    if smoothed(*m, a, b, threshold as int) {
                        stone_floor(out.tile_at(a, b))
                    } else {
                        stone_wall(out.tile_at(a, b))
                    }
                } else {
                    out.tile_at(a, b) == m.tile_at(a, b)
                },
            decreases MAP_WIDTH - 1 - x,
        {
            let c = floor_at(m, x - 1, y - 1) + floor_at(m, x, y - 1) + floor_at(m, x + 1, y - 1)
                + floor_at(m, x - 1, y) + floor_at(m, x, y) + floor_at(m, x + 1, y)
                + floor_at(m, x - 1, y + 1) + floor_at(m, x, y + 1) + floor_at(m, x + 1, y + 1);
            let t = if c >= threshold {
                floor_tile("stone")
            } else {
                wall_tile("stone", 100)
            };
            let ghost o1 = out;
            out.set_tile(x, y, t);
            proof {
                lemma_set_tile_frame(&o1, &out, x as int, y as int, t);
            }
            x = x + 1;
        }
        y = y + 1;
    }
    out
}

/// `v` lies on the way from `from` toward `to`, `to` itself excluded.
pub open spec fn on_way(v: int, from: int, to: int) -> bool {
    if from <= to {
        from <= v < to
    } else {
        to < v <= from
    }
}

/// The cell lies on the L-shaped corridor from `(sx, sy)` to `(ex, ey)`,
/// `width` cells wide: first along row `sy` (and the rows below it) toward
/// `ex`, then down column `ex` (and the columns right of it) toward `ey`.
pub open spec fn on_corridor(x: int, y: int, sx: int, sy: int, ex: int, ey: int, width: int) -> bool {
    (on_way(x, sx, ex) && sy <= y < sy + width) || (ex <= x < ex + width && on_way(y, sy, ey))
}

/// Carve an L-shaped corridor, `width` cells wide; cells that would fall past
/// the bottom or right edge are skipped.
pub fn carve_corridor(m: &mut TileMap, sx: usize, sy: usize, ex: usize, ey: usize, width: u64)
    requires
        layer_shaped(*old(m)),
        on_grid(sx as int, sy as int),
        on_grid(ex as int, ey as int),
    ensures
        layer_shaped(*final(m)),
        forall|x: int, y: int| #![trigger final(m).tile_at(x, y)] on_grid(x, y) ==> if on_corridor(
            x,
            y,
            sx as int,
            sy as int,
            ex as int,
            ey as int,
            width as int,
        ) {
            stone_floor(final(m).tile_at(x, y))
        } else {
            final(m).tile_at(x, y) == old(m).tile_at(x, y)
        },
{
    let ghost m0 = *m;
    let mut x = sx;
    while x != ex
        invariant
            layer_shaped(*m),
            layer_shaped(m0),
            on_grid(x as int, sy as int),
            on_grid(ex as int, ey as int),
            on_way(x as int, sx as int, ex as int) || x == ex,
            sx <= ex ==> sx <= x,
            sx > ex ==> x <= sx,
            forall|a: int, b: int| #![trigger m.tile_at(a, b)] on_grid(a, b) ==> if on_way(a, sx as int, x as int)
                && sy <= b < sy + width {
                stone_floor(m.tile_at(a, b))
            } else {
                m.tile_at(a, b) == m0.tile_at(a, b)
            },
        decreases if x < ex { ex - x } else { x - ex },
    {
        let ghost m1 = *m;
        let mut w: u64 = 0;
        while w < width && sy + (w as usize) < MAP_HEIGHT
            invariant
                layer_shaped(*m),
                layer_shaped(m1),
                on_grid(x as int, sy as int),
                w <= width,
                sy + w <= MAP_HEIGHT,
                forall|a: int, b: int| #![trigger m.tile_at(a, b)] on_grid(a, b) ==> if a == x && sy <= b < sy + w {
                    stone_floor(m.tile_at(a, b))
                } else {
                    m.tile_at(a, b) == m1.tile_at(a, b)
                },
            decreases width - w,
        {
            carve(m, x, sy + (w as usize));
            w = w + 1;
        }
        x = if x < ex { x + 1 } else { x - 1 };
    }
    let ghost m2 = *m;
    let mut y = sy;
    while y != ey
        invariant
            layer_shaped(*m),
            layer_shaped(m2),
            on_grid(ex as int, y as int),
            on_grid(ex as int, ey as int),
            sy <= ey ==> sy <= y <= ey,
            sy > ey ==> ey <= y <= sy,
            forall|a: int, b: int| #![trigger m.tile_at(a, b)] on_grid(a, b) ==> if ex <= a < ex + width
                && on_way(b, sy as int, y as int) {
                stone_floor(m.tile_at(a, b))
            } else {
                m.tile_at(a, b) == m2.tile_at(a, b)
            },
        decreases if y < ey { ey - y } else { y - ey },
    {
        let ghost m1 = *m;
        let mut w: u64 = 0;
        while w < width && ex + (w as usize) < MAP_WIDTH
            invariant
                layer_shaped(*m),
                layer_shaped(m1),
                on_grid(ex as int, y as int),
                w <= width,
                ex + w <= MAP_WIDTH,
                forall|a: int, b: int| #![trigger m.tile_at(a, b)] on_grid(a, b) ==> if b == y && ex <= a < ex + w {
                    stone_floor(m.tile_at(a, b))
                } else {
                    m.tile_at(a, b) == m1.tile_at(a, b)
                },
            decreases width - w,
        {
            carve(m, ex + (w as usize), y);
            w = w + 1;
        }
        y = if y < ey { y + 1 } else { y - 1 };
    }
}

/// Some corridor of the list, `width` wide, covers the cell.
pub open spec fn on_corridors(ends: Seq<(int, int, int, int)>, width: int, x: int, y: int) -> bool {
    exists|j: int| 0 <= j < ends.len() && #[trigger] on_corridor(x, y, ends[j].0, ends[j].1, ends[j].2, ends[j].3, width)
}

/// Exactly the cells of corridors `width` wide between the listed interior
/// ends became stone floor; the rest kept their tiles.
pub open spec fn corridors_carved(m0: TileMap, m: TileMap, ends: Seq<(int, int, int, int)>, width: int) -> bool {
    &&& layer_shaped(m)
    &&& forall|j: int| 0 <= j < ends.len() ==> interior((#[trigger] ends[j]).0, ends[j].1) && interior(ends[j].2, ends[j].3)
    &&& forall|x: int, y: int| #![trigger m.tile_at(x, y)] on_grid(x, y) ==> if on_corridors(ends, width, x, y) {
        stone_floor(m.tile_at(x, y))
    } else {
        m.tile_at(x, y) == m0.tile_at(x, y)
    }
}

/// Corridors: `count` times, two random interior cells are drawn and joined
/// by an L-shaped corridor `width` cells wide.
pub fn connect_regions(m: &mut TileMap, rng: &mut ChaCha8Rng, count: u64, width: u64)
    requires
        layer_shaped(*old(m)),
    ensures
        floors_added(*old(m), *final(m)),
        exists|ends: Seq<(int, int, int, int)>| ends.len() == count && #[trigger] corridors_carved(*old(m), *final(m), ends, width as int),
{
    let ghost m0 = *m;
    let ghost mut ends: Seq<(int, int, int, int)> = Seq::empty();
    let mut i: u64 = 0;
    while i < count
        invariant
            layer_shaped(*m),
            layer_shaped(m0),
            i <= count,
            floors_added(m0, *m),
            ends.len() == i,
            corridors_carved(m0, *m, ends, width as int),
        decreases count - i,
    {
        let sx = gen_range_usize(rng, 1, MAP_WIDTH - 1);
        let sy = gen_range_usize(rng, 1, MAP_HEIGHT - 1);
        let ex = gen_range_usize(rng, 1, MAP_WIDTH - 1);
        let ey = gen_range_usize(rng, 1, MAP_HEIGHT - 1);
        let ghost mp = *m;
        carve_corridor(m, sx, sy, ex, ey, width);
        proof {
            let c = (sx as int, sy as int, ex as int, ey as int);
            let es = ends.push(c);
            let w = width as int;
            assert forall|j: int| 0 <= j < es.len() implies interior((#[trigger] es[j]).0, es[j].1) && interior(es[j].2, es[j].3) by {
                if j < ends.len() {
                    assert(es[j] == ends[j]);
                }
            }
            assert forall|a: int, b: int| #![trigger m.tile_at(a, b)] on_grid(a, b) implies if on_corridors(es, w, a, b) {
                stone_floor(m.tile_at(a, b))
            } else {
                m.tile_at(a, b) == m0.tile_at(a, b)
            } by {
                assert(mp.tile_at(a, b) == mp.tile_at(a, b));
                if on_corridors(ends, w, a, b) {
                    let j = choose|j: int| 0 <= j < ends.len() && #[trigger] on_corridor(a, b, ends[j].0, ends[j].1, ends[j].2, ends[j].3, w);
                    assert(es[j] == ends[j]);
                    assert(on_corridor(a, b, es[j].0, es[j].1, es[j].2, es[j].3, w));
                }
                if on_corridor(a, b, c.0, c.1, c.2, c.3, w) {
                    assert(es[ends.len() as int] == c);
                    assert(on_corridor(a, b, es[ends.len() as int].0, es[ends.len() as int].1, es[ends.len() as int].2, es[ends.len() as int].3, w));
                }
                if on_corridors(es, w, a, b) && !on_corridor(a, b, c.0, c.1, c.2, c.3, w) {
                    let j = choose|j: int| 0 <= j < es.len() && #[trigger] on_corridor(a, b, es[j].0, es[j].1, es[j].2, es[j].3, w);
                    if j < ends.len() {
                        assert(es[j] == ends[j]);
                        assert(on_corridor(a, b, ends[j].0, ends[j].1, ends[j].2, ends[j].3, w));
                    }
                }
            }
            ends = es;
        }
        i = i + 1;
    }
    proof {
        assert(corridors_carved(m0, *m, ends, width as int));
    }
}

/// Exactly the listed interior cells became stone floor; the rest kept
/// their tiles.
pub open spec fn points_carved(m0: TileMap, m: TileMap, pts: Seq<(int, int)>) -> bool {
    &&& layer_shaped(m)
    &&& forall|j: int| 0 <= j < pts.len() ==> interior((#[trigger] pts[j]).0, pts[j].1)
    &&& forall|x: int, y: int| #![trigger m.tile_at(x, y)] on_grid(x, y) ==> if pts.contains((x, y)) {
        stone_floor(m.tile_at(x, y))
    } else {
        m.tile_at(x, y) == m0.tile_at(x, y)
    }
}

/// Scattered floor: 500 random interior cells are carved.
pub fn scatter_points(m: &mut TileMap, rng: &mut ChaCha8Rng)
    requires
        layer_shaped(*old(m)),
    ensures
        floors_added(*old(m), *final(m)),
        border_kept(*old(m), *final(m)),
        exists|pts: Seq<(int, int)>| pts.len() == 500 && #[trigger] points_carved(*old(m), *final(m), pts),
{
    let ghost m0 = *m;
    let ghost mut pts: Seq<(int, int)> = Seq::empty();
    let mut i: u32 = 0;
    while i < 500
        invariant
            layer_shaped(*m),
            layer_shaped(m0),
            i <= 500,
            floors_added(m0, *m),
            border_kept(m0, *m),
            pts.len() == i,
            points_carved(m0, *m, pts),
        decreases 500 - i,
    {
        let x = gen_range_usize(rng, 1, MAP_WIDTH - 1);
        let y = gen_range_usize(rng, 1, MAP_HEIGHT - 1);
        let ghost mp = *m;
        carve(m, x, y);
        proof {
            let q = (x as int, y as int);
            let ps = pts.push(q);
            assert forall|j: int| 0 <= j < ps.len() implies interior((#[trigger] ps[j]).0, ps[j].1) by {
                if j < pts.len() {
                    assert(ps[j] == pts[j]);
                }
            }
            assert forall|a: int, b: int| #![trigger m.tile_at(a, b)] on_grid(a, b) implies if ps.contains((a, b)) {
                stone_floor(m.tile_at(a, b))
            } else {
                m.tile_at(a, b) == m0.tile_at(a, b)
            } by {
                assert(mp.in_bounds_spec(a, b));
                if pts.contains((a, b)) {
                    let j = choose|j: int| 0 <= j < pts.len() && pts[j] == (a, b);
                    assert(ps[j] == (a, b));
                }
                if (a, b) == q {
                    assert(ps[pts.len() as int] == q);
                }
                if ps.contains((a, b)) && (a, b) != q {
                    let j = choose|j: int| 0 <= j < ps.len() && ps[j] == (a, b);
                    assert(pts[j] == (a, b));
                }
            }
            pts = ps;
        }
        i = i + 1;
    }
}

/// How a layer is combined with the map built so far.
#[derive(Debug, Clone, Copy, PartialEq, Eq)]
pub enum BlendMode {
    Replace,
    Additive,
    Subtractive,
    Intersection,
    Erosion,
    Multiply,
    Screen,
    Overlay,
    Difference,
}

/// The parameters a layer's algorithm reads; an absent one takes its default.
#[derive(Debug, Clone)]
pub struct LayerParams {
    /// Chance, in millionths, that a noise cell stays wall (default 450 000).
    pub initial_wall_chance: Option<u32>,
    /// Rooms to place (default 5).
    pub room_count: Option<u64>,
    /// Drunkard walkers (default 3).
    pub walker_count: Option<u64>,
    /// Steps per walker (default 500).
    pub max_steps: Option<u64>,
    /// Smoothing passes (default 2).
    pub iterations: Option<u64>,
    /// Floor cells a 3x3 block needs to stay floor when smoothing (default 4).
    pub threshold: Option<u32>,
    /// Corridor width (default 1).
    pub corridor_width: Option<u64>,
    /// Corridors to dig (default 5).
    pub max_corridors: Option<u64>,
}

/// One layer: the algorithm's name, its parameters and its blend mode.
#[derive(Debug, Clone)]
pub struct LayerConfig {
    pub algorithm: String,
    pub params: LayerParams,
    pub blend_mode: BlendMode,
}

/// The layers in the order they are applied.
#[derive(Debug, Clone)]
pub struct LayeredGenerationConfig {
    pub layers: Vec<LayerConfig>,
    pub blend_mode: BlendMode,
}

/// The result of blending one cell: `b` the cell so far, `l` the layer's cell
/// and `r` the cell afterwards. Erosion and Overlay change a cell only on a
/// random draw, so for them the relation says what either outcome gives.
pub open spec fn blended(mode: BlendMode, b: Tile, l: Tile, r: Tile) -> bool {
    let lf = l is Floor;
    let bf = b is Floor;
    match mode {
        BlendMode::Replace => r == l,
        BlendMode::Additive => r == (if lf { l } else { b }),
        BlendMode::Subtractive => if lf && bf { stone_wall(r) } else { r == b },
        BlendMode::Intersection => if lf && bf { r == l } else { stone_wall(r) },
        BlendMode::Erosion => r == b || (lf && b is Wall && stone_floor(r)),
        BlendMode::Multiply => if lf && bf { r == l } else { stone_wall(r) },
        BlendMode::Screen => if lf || bf { stone_floor(r) } else { r == b },
        BlendMode::Overlay => r == b || (lf && r == l),
        BlendMode::Difference => if lf != bf { stone_floor(r) } else { stone_wall(r) },
    }
}

/// The blend mode makes random draws (Erosion and Overlay); the others are
/// fixed by the two cells.
pub open spec fn draws(mode: BlendMode) -> bool {
    mode is Erosion || mode is Overlay
}

/// Blend one cell; Erosion turns a wall under a layer floor into stone floor
/// on a 30% draw, Overlay takes the layer's floor on an 80% draw over floor and
/// a 40% draw over wall.
fn blend_cell(mode: BlendMode, b: &Tile, l: &Tile, rng: &mut ChaCha8Rng) -> (r: Option<Tile>)
    ensures
        blended(mode, *b, *l, match r { Some(t) => t, None => *b }),
        !draws(mode) ==> *final(rng) == *old(rng),
{
    let lf = matches!(l, Tile::Floor { .. });
    let bf = matches!(b, Tile::Floor { .. });
    match mode {
        BlendMode::Replace => Some(l.clone()),
        BlendMode::Additive => if lf { Some(l.clone()) } else { None },
        BlendMode::Subtractive => if lf && bf { Some(wall_tile("stone", 100)) } else { None },
        BlendMode::Intersection | BlendMode::Multiply => if lf && bf {
            Some(l.clone())
        } else {
            Some(wall_tile("stone", 100))
        },
        BlendMode::Erosion => {
            if lf && matches!(b, Tile::Wall { .. }) {
                let v = gen_range_u32(rng, 0, CHANCE_SCALE);
                if v < 300_000 {
                    return Some(floor_tile("stone"));
                }
            }
            None
        },
        BlendMode::Screen => if lf || bf { Some(floor_tile("stone")) } else { None },
        BlendMode::Overlay => {
            if lf {
                let strength: u32 = if bf { 800_000 } else { 400_000 };
                let v = gen_range_u32(rng, 0, CHANCE_SCALE);
                if v < strength {
                    return Some(l.clone());
                }
            }
            None
        },
        BlendMode::Difference => if lf != bf {
            Some(floor_tile("stone"))
        } else {
            Some(wall_tile("stone", 100))
        },
    }
}

/// Blend a layer onto the map cell by cell, in row order.
pub fn blend_layer(base: &mut TileMap, layer: &TileMap, mode: BlendMode, rng: &mut ChaCha8Rng)
    requires
        layer_shaped(*old(base)),
        layer_shaped(*layer),
    ensures
        layer_shaped(*final(base)),
        forall|x: int, y: int| on_grid(x, y) ==> blended(
            mode,
            old(base).tile_at(x, y),
            layer.tile_at(x, y),
            #[trigger] final(base).tile_at(x, y),
        ),
        !draws(mode) ==> *final(rng) == *old(rng),
{
    let ghost m0 = *base;
    let ghost rng0 = *rng;
    let mut y: usize = 0;
    while y < MAP_HEIGHT
        invariant
            layer_shaped(*base),
            layer_shaped(m0),
            layer_shaped(*layer),
            y <= MAP_HEIGHT,
            rng0 == *old(rng),
            !draws(mode) ==> *rng == rng0,
            forall|a: int, b: int| #![trigger base.tile_at(a, b)] on_grid(a, b) ==> if b < y {
                blended(mode, m0.tile_at(a, b), layer.tile_at(a, b), base.tile_at(a, b))
            } else {
                base.tile_at(a, b) == m0.tile_at(a, b)
            },
        decreases MAP_HEIGHT - y,
    {
        let mut x: usize = 0;
        while x < MAP_WIDTH
            invariant
                layer_shaped(*base),
                layer_shaped(m0),
                layer_shaped(*layer),
                y < MAP_HEIGHT,
                x <= MAP_WIDTH,
                rng0 == *old(rng),
                !draws(mode) ==> *rng == rng0,
                forall|a: int, b: int| #![trigger base.tile_at(a, b)] on_grid(a, b) ==> if b < y || (b == y && a < x) {
                    blended(mode, m0.tile_at(a, b), layer.tile_at(a, b), base.tile_at(a, b))
                } else {
                    base.tile_at(a, b) == m0.tile_at(a, b)
                },
            decreases MAP_WIDTH - x,
        {
            proof {
                lemma_cell_index_bounds(MAP_WIDTH as int, MAP_HEIGHT as int, x as int, y as int);
            }
            let i = y * MAP_WIDTH + x;
            let ghost bt = base.tile_at(x as int, y as int);
            let ghost lt = layer.tile_at(x as int, y as int);
            assert(bt == m0.tile_at(x as int, y as int));
            let r = blend_cell(mode, &base.tiles[i], &layer.tiles[i], rng);
            match r {
                Some(t) => {
                    let ghost m1 = *base;
                    base.set_tile(x, y, t);
                    proof {
                        lemma_set_tile_frame(&m1, base, x as int, y as int, t);
                        assert(blended(mode, bt, lt, base.tile_at(x as int, y as int)));
                    }
                },
                None => {
                    assert(blended(mode, bt, lt, base.tile_at(x as int, y as int)));
                },
            }
            x = x + 1;
        }
        y = y + 1;
    }
}

/// A value, or the default where it is absent.
pub open spec fn or_default<T>(v: Option<T>, d: T) -> T {
    match v {
        Some(x) => x,
        None => d,
    }
}

/// A corridor at most one cell wide between interior cells stays inside the
/// border.
proof fn lemma_thin_corridor_inside(x: int, y: int, sx: int, sy: int, ex: int, ey: int, width: int)
    requires
        interior(sx, sy),
        interior(ex, ey),
        width <= 1,
        on_corridor(x, y, sx, sy, ex, ey, width),
    ensures
        interior(x, y),
{
}

/// What building a layer gives, whatever is drawn: a standard-size map of
/// stone, with the border walled unless corridors wider than one cell are
/// dug, and, by the algorithm:
/// - `cellular_automata`: every interior cell floored for a wall chance of
///   0, none for a wall chance of 100%;
/// - `simple_rooms`: exactly the cells of `room_count` drawn rooms floored;
/// - `drunkard_walk`: exactly the cells of `walker_count` walks of
///   `max_steps` cells floored;
/// - `connect`: exactly the cells of `max_corridors` corridors of the width
///   between drawn interior cells floored;
/// - `smooth`: stone with a walled border;
/// - any other name: exactly 500 drawn interior cells floored.
pub open spec fn layer_outcome(layer: LayerConfig, m: TileMap) -> bool {
    let p = layer.params;
    let a = layer.algorithm@;
    &&& layer_shaped(m)
    &&& all_stone(m)
    &&& (a != "connect"@ || or_default(p.corridor_width, 1) <= 1) ==> walled_border(m)
    &&& a == "cellular_automata"@ ==> {
        &&& or_default(p.initial_wall_chance, 450_000) == 0 ==> forall|x: int, y: int| interior(x, y) ==> stone_floor(
            #[trigger] m.tile_at(x, y),
        )
        &&& or_default(p.initial_wall_chance, 450_000) >= CHANCE_SCALE ==> solid_stone(m)
    }
    &&& a == "simple_rooms"@ ==> exists|m0: TileMap, rooms: Seq<(int, int, int, int)>| solid_stone(m0) && rooms.len() == or_default(
        p.room_count,
        5,
    ) && #[trigger] rooms_carved(m0, m, rooms)
    &&& a == "drunkard_walk"@ ==> exists|m0: TileMap, walks: Seq<Seq<(int, int)>>| solid_stone(m0) && #[trigger] walks_carved(m0, m, walks)
        && walks.len() == or_default(p.walker_count, 3) && forall|w: int| 0 <= w < walks.len() ==> (#[trigger] walks[w]).len()
        == or_default(p.max_steps, 500) && walk_ok(walks[w])
    &&& a == "connect"@ ==> exists|m0: TileMap, ends: Seq<(int, int, int, int)>| solid_stone(m0) && ends.len() == or_default(
        p.max_corridors,
        5,
    ) && #[trigger] corridors_carved(m0, m, ends, or_default(p.corridor_width, 1) as int)
    &&& (a != "cellular_automata"@ && a != "simple_rooms"@ && a != "drunkard_walk"@ && a != "smooth"@ && a != "connect"@) ==> exists|
        m0: TileMap,
        pts: Seq<(int, int)>,
    | solid_stone(m0) && pts.len() == 500 && #[trigger] points_carved(m0, m, pts)
}

/// The maps after each layer in turn: the first solid stone, each next one
/// the one before with a layer blended in, built as `layer_outcome` says.
pub open spec fn layers_applied(layers: Seq<LayerConfig>, ms: Seq<TileMap>) -> bool {
    &&& ms.len() == layers.len() + 1
    &&& layer_shaped(ms[0]) && solid_stone(ms[0])
    &&& forall|i: int| 0 <= i < layers.len() ==> #[trigger] layer_step(layers[i], ms[i], ms[i + 1])
}

/// `r` is `b` with some map that the layer can build blended in.
pub open spec fn layer_step(layer: LayerConfig, b: TileMap, r: TileMap) -> bool {
    exists|lm: TileMap| layer_outcome(layer, lm) && #[trigger] layer_blended(layer.blend_mode, b, lm, r)
}

/// Every cell of `r` is cell of `b` blended with that of `l`.
pub open spec fn layer_blended(mode: BlendMode, b: TileMap, l: TileMap, r: TileMap) -> bool {
    &&& layer_shaped(r)
    &&& forall|x: int, y: int| on_grid(x, y) ==> blended(mode, b.tile_at(x, y), l.tile_at(x, y), #[trigger] r.tile_at(x, y))
}

/// The algorithm names are told apart by their first two letters.
proof fn lemma_layer_names_differ()
    ensures
        "cellular_automata"@ != "simple_rooms"@,
        "cellular_automata"@ != "drunkard_walk"@,
        "cellular_automata"@ != "smooth"@,
        "cellular_automata"@ != "connect"@,
        "simple_rooms"@ != "drunkard_walk"@,
        "simple_rooms"@ != "smooth"@,
        "simple_rooms"@ != "connect"@,
        "drunkard_walk"@ != "smooth"@,
        "drunkard_walk"@ != "connect"@,
        "smooth"@ != "connect"@,
{
    reveal_strlit("cellular_automata");
    reveal_strlit("simple_rooms");
    reveal_strlit("drunkard_walk");
    reveal_strlit("smooth");
    reveal_strlit("connect");
    assert("cellular_automata"@[1] == 'e');
    assert("simple_rooms"@[0] == 's' && "simple_rooms"@[1] == 'i');
    assert("drunkard_walk"@[0] == 'd');
    assert("smooth"@[0] == 's' && "smooth"@[1] == 'm');
    assert("connect"@[0] == 'c' && "connect"@[1] == 'o');
}

/// Runs the configured layers.
pub struct LayeredGenerator {
    pub config: LayeredGenerationConfig,
}

/// A value, or the default where it is absent.
fn or_default_u64(v: Option<u64>, d: u64) -> (r: u64)
    ensures
        r == match v { Some(x) => x, None => d },
{
    match v {
        Some(x) => x,
        None => d,
    }
}

/// A value, or the default where it is absent.
fn or_default_u32(v: Option<u32>, d: u32) -> (r: u32)
    ensures
        r == match v { Some(x) => x, None => d },
{
    match v {
        Some(x) => x,
        None => d,
    }
}

impl LayeredGenerator {
    /// A generator for the given layers.
    pub fn new(config: LayeredGenerationConfig) -> (g: Self)
        ensures
            g.config == config,
    {
        LayeredGenerator { config }
    }

    /// Build one layer on a fresh stone map. The algorithm is picked by name:
    /// `cellular_automata` (noise), `simple_rooms`, `drunkard_walk`, `smooth`
    /// (half-chance noise, then smoothing passes), `connect` (corridors);
    /// any other name scatters 500 floor cells. Only `connect` can open the
    /// border.
    pub fn generate_layer(&self, layer: &LayerConfig, rng: &mut ChaCha8Rng) -> (m: TileMap)
        ensures
            layer_shaped(m),
            all_stone(m),
            layer.algorithm@ != "connect"@ ==> walled_border(m),
            layer_outcome(*layer, m),
    {
        let mut m = stone_layer();
        let ghost m0 = m;
        let p = &layer.params;
        let name = &layer.algorithm;
        proof {
            lemma_layer_names_differ();
        }
        if *name == String::from_str("cellular_automata") {
            let chance = or_default_u32(p.initial_wall_chance, 450_000);
            scatter_floors(&mut m, rng, chance);
            proof {
                if chance >= CHANCE_SCALE {
                    assert(m.tiles@ == m0.tiles@);
                    assert forall|x: int, y: int| on_grid(x, y) implies stone_wall(#[trigger] m.tile_at(x, y)) by {
                        assert(m.tile_at(x, y) == m0.tile_at(x, y));
                    }
                }
            }
        } else if *name == String::from_str("simple_rooms") {
            let count = or_default_u64(p.room_count, 5);
            place_rooms(&mut m, rng, count);
            proof {
                let rooms = choose|rooms: Seq<(int, int, int, int)>| rooms.len() == count && #[trigger] rooms_carved(m0, m, rooms);
                assert(solid_stone(m0) && rooms.len() == or_default(p.room_count, 5) && rooms_carved(m0, m, rooms));
            }
        } else if *name == String::from_str("drunkard_walk") {
            let walkers = or_default_u64(p.walker_count, 3);
            let steps = or_default_u64(p.max_steps, 500);
            walk_drunkards(&mut m, rng, walkers, steps);
            proof {
                let walks = choose|walks: Seq<Seq<(int, int)>>| #[trigger] walks_carved(m0, m, walks) && walks.len() == walkers && forall|w: int|
                    0 <= w < walks.len() ==> (#[trigger] walks[w]).len() == steps && walk_ok(walks[w]);
                assert(solid_stone(m0) && walks_carved(m0, m, walks));
            }
        } else if *name == String::from_str("smooth") {
            let iterations = or_default_u64(p.iterations, 2);
            let threshold = or_default_u32(p.threshold, 4);
            scatter_floors(&mut m, rng, 500_000);
            let mut k: u64 = 0;
            while k < iterations
                invariant
                    layer_shaped(m),
                    all_stone(m),
                    walled_border(m),
                    k <= iterations,
                decreases iterations - k,
            {
                m = smooth_step(&m, threshold);
                k = k + 1;
            }
        } else if *name == String::from_str("connect") {
            let width = or_default_u64(p.corridor_width, 1);
            let count = or_default_u64(p.max_corridors, 5);
            connect_regions(&mut m, rng, count, width);
            proof {
                let ends = choose|ends: Seq<(int, int, int, int)>| ends.len() == count && #[trigger] corridors_carved(m0, m, ends, width as int);
                assert(solid_stone(m0) && corridors_carved(m0, m, ends, or_default(p.corridor_width, 1) as int));
                if width <= 1 {
                    assert forall|x: int, y: int| on_grid(x, y) && !interior(x, y) implies stone_wall(#[trigger] m.tile_at(x, y)) by {
                        if on_corridors(ends, width as int, x, y) {
                            let j = choose|j: int| 0 <= j < ends.len() && #[trigger] on_corridor(x, y, ends[j].0, ends[j].1, ends[j].2, ends[j].3, width as int);
                            lemma_thin_corridor_inside(x, y, ends[j].0, ends[j].1, ends[j].2, ends[j].3, width as int);
                        }
                    }
                }
            }
        } else {
            scatter_points(&mut m, rng);
            proof {
                let pts = choose|pts: Seq<(int, int)>| pts.len() == 500 && #[trigger] points_carved(m0, m, pts);
                assert(solid_stone(m0) && points_carved(m0, m, pts));
            }
        }
        m
    }

    /// Build the map for a seed: start from solid stone and blend in each
    /// layer in order, all drawing from one generator seeded with `seed`.
    pub fn generate(&self, seed: u64) -> (m: TileMap)
        ensures
            layer_shaped(m),
            all_stone(m),
            self.config.layers@.len() == 0 ==> solid_stone(m),
            exists|ms: Seq<TileMap>| #[trigger] layers_applied(self.config.layers@, ms) && ms.last() == m,
    {
        let mut rng = seeded_rng(seed);
        let mut result = stone_layer();
        let ghost mut ms: Seq<TileMap> = seq![result];
        let mut i: usize = 0;
        while i < self.config.layers.len()
            invariant
                layer_shaped(result),
                all_stone(result),
                i <= self.config.layers@.len(),
                i == 0 ==> solid_stone(result),
                layers_applied(self.config.layers@.subrange(0, i as int), ms),
                ms.last() == result,
            decreases self.config.layers@.len() - i,
        {
            let layer = &self.config.layers[i];
            let layer_map = self.generate_layer(layer, &mut rng);
            let ghost before = result;
            blend_layer(&mut result, &layer_map, layer.blend_mode, &mut rng);
            proof {
                let ls = self.config.layers@.subrange(0, i as int);
                let ls1 = self.config.layers@.subrange(0, i + 1);
                let ms1 = ms.push(result);
                assert(layer_blended(layer.blend_mode, before, layer_map, result));
                assert(layer_step(*layer, before, result));
                assert forall|j: int| 0 <= j < ls1.len() implies #[trigger] layer_step(ls1[j], ms1[j], ms1[j + 1]) by {
                    if j < ls.len() {
                        assert(ls1[j] == ls[j]);
                        assert(ms1[j] == ms[j] && ms1[j + 1] == ms[j + 1]);
                        assert(layer_step(ls[j], ms[j], ms[j + 1]));
                    } else {
                        assert(ls1[j] == *layer);
                        assert(ms1[j] == before);
                    }
                }
                ms = ms1;
            }
            i = i + 1;
        }
        proof {
            assert(self.config.layers@.subrange(0, i as int) =~= self.config.layers@);
        }
        result
    }
}

} // verus!
