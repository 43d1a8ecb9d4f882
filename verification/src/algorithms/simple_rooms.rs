//! Rooms scattered over a rectangle without overlap, joined in a ring by
//! L-shaped corridors.

use vstd::prelude::*;
use vstd::arithmetic::div_mod::lemma_fundamental_div_mod_converse;
use rand_chacha::ChaCha8Rng;
use crate::structures::Rectangle;
use crate::rng::{gen_range_u32, gen_range_incl_u32};

verus! {

/// How many rooms to try for, how large, and how far apart.
#[derive(Debug)]
pub struct SimpleRoomsParams {
    pub num_rooms: u32,
    pub min_room_size: (u32, u32),
    pub max_room_size: (u32, u32),
    pub corridor_width: u32,
    pub max_placement_attempts: u32,
    pub room_spacing: u32,
}

impl Clone for SimpleRoomsParams {
    fn clone(&self) -> (c: Self)
        ensures
            c == *self,
    {
        SimpleRoomsParams {
            num_rooms: self.num_rooms,
            min_room_size: (self.min_room_size.0, self.min_room_size.1),
            max_room_size: (self.max_room_size.0, self.max_room_size.1),
            corridor_width: self.corridor_width,
            max_placement_attempts: self.max_placement_attempts,
            room_spacing: self.room_spacing,
        }
    }
}

impl Default for SimpleRoomsParams {
    fn default() -> (p: Self)
        ensures
            p == (SimpleRoomsParams {
                num_rooms: 8,
                min_room_size: (4, 4),
                max_room_size: (10, 8),
                corridor_width: 1,
                max_placement_attempts: 100,
                room_spacing: 2,
            }),
    {
        SimpleRoomsParams {
            num_rooms: 8,
            min_room_size: (4, 4),
            max_room_size: (10, 8),
            corridor_width: 1,
            max_placement_attempts: 100,
            room_spacing: 2,
        }
    }
}

/// A placed room.
#[derive(Debug, Clone, Copy)]
pub struct SimpleRoom {
    pub bounds: Rectangle,
}

/// The room-scattering generator.
pub struct SimpleRoomsAlgorithm {
    params: SimpleRoomsParams,
}

/// Two rectangles come closer than `spacing` cells on both axes.
pub open spec fn too_close(spacing: int, a: Rectangle, b: Rectangle) -> bool {
    &&& a.x < b.x + b.width + spacing
    &&& a.x + a.width + spacing > b.x
    &&& a.y < b.y + b.height + spacing
    &&& a.y + a.height + spacing > b.y
}

/// Every room size in `lo..=hi` either does not fit in `extent` or leaves
/// room for a one-cell margin on both sides with a choice of position.
pub open spec fn sizes_fit(lo: u32, hi: u32, extent: u32) -> bool {
    lo > hi || hi + 2 < extent || lo >= extent
}

/// The inputs on which generation runs without a failed range or overflow.
pub open spec fn can_generate(p: SimpleRoomsParams, b: Rectangle) -> bool {
    &&& b.x + b.width + p.room_spacing + p.corridor_width <= u32::MAX
    &&& b.y + b.height + p.room_spacing + p.corridor_width <= u32::MAX
    &&& (p.num_rooms > 0 && p.max_placement_attempts > 0) ==> (p.min_room_size.0 <= p.max_room_size.0
        && p.min_room_size.1 <= p.max_room_size.1)
    &&& sizes_fit(p.min_room_size.0, p.max_room_size.0, b.width)
    &&& sizes_fit(p.min_room_size.1, p.max_room_size.1, b.height)
    &&& p.num_rooms >= 2 ==> (p.min_room_size.0 >= 1 && p.min_room_size.1 >= 1)
}

/// A room of allowed size lying strictly inside `b`, one cell from its edges.
pub open spec fn room_placed(p: SimpleRoomsParams, b: Rectangle, r: Rectangle) -> bool {
    &&& p.min_room_size.0 <= r.width <= p.max_room_size.0
    &&& p.min_room_size.1 <= r.height <= p.max_room_size.1
    &&& b.x + 1 <= r.x
    &&& r.x + r.width + 1 < b.x + b.width
    &&& b.y + 1 <= r.y
    &&& r.y + r.height + 1 < b.y + b.height
}

/// The `i`-th cell of a horizontal band `w` cells thick starting at `(x0, y0)`.
pub open spec fn h_cell(x0: int, y0: int, w: int, i: int) -> (u32, u32) {
    ((x0 + i / w) as u32, (y0 + i % w) as u32)
}

/// The `i`-th cell of a vertical band `w` cells thick starting at `(x0, y0)`.
pub open spec fn v_cell(x0: int, y0: int, w: int, i: int) -> (u32, u32) {
    ((x0 + i % w) as u32, (y0 + i / w) as u32)
}

pub open spec fn lo(a: u32, b: u32) -> int {
    if a < b { a as int } else { b as int }
}

pub open spec fn hi(a: u32, b: u32) -> int {
    if a < b { b as int } else { a as int }
}

/// The horizontal leg of an L-shaped corridor, column by column.
pub open spec fn h_leg(s: (u32, u32), e: (u32, u32), w: u32) -> Seq<(u32, u32)> {
    Seq::new(((hi(s.0, e.0) - lo(s.0, e.0) + 1) * w) as nat, |i: int| h_cell(lo(s.0, e.0), s.1 as int, w as int, i))
}

/// The vertical leg of an L-shaped corridor, row by row.
pub open spec fn v_leg(s: (u32, u32), e: (u32, u32), w: u32) -> Seq<(u32, u32)> {
    Seq::new(((hi(s.1, e.1) - lo(s.1, e.1) + 1) * w) as nat, |i: int| v_cell(e.0 as int, lo(s.1, e.1), w as int, i))
}

/// The cells of an L-shaped corridor `w` cells wide from `s` to `e`: along
/// row `s.1` between the two columns, then down column `e.0` between the rows.
pub open spec fn l_shape(s: (u32, u32), e: (u32, u32), w: u32) -> Seq<(u32, u32)> {
    h_leg(s, e, w) + v_leg(s, e, w)
}

/// Rooms `a` and `b` are joined: each room to the next, and the last back to
/// the first when there are more than two.
pub open spec fn linked(n: int, a: int, b: int) -> bool {
    (0 <= a && b == a + 1 && b < n) || (n > 2 && a == n - 1 && b == 0)
}

/// How many corridors join `n` rooms: each to the next, and the last back
/// to the first when there are more than two.
pub open spec fn link_count(n: int) -> int {
    if n < 2 { 0 } else if n == 2 { 1 } else { n }
}

/// The rooms the `k`-th corridor runs between.
pub open spec fn link_pair(n: int, k: int) -> (int, int) {
    if k < n - 1 { (k, k + 1) } else { (n - 1, 0) }
}

/// The cells of the corridors between the listed ends, in order.
pub open spec fn corridor_cells(ends: Seq<((u32, u32), (u32, u32))>, w: u32) -> Seq<(u32, u32)>
    decreases ends.len(),
{
    if ends.len() == 0 {
        Seq::empty()
    } else {
        corridor_cells(ends.drop_last(), w) + l_shape(ends.last().0, ends.last().1, w)
    }
}

/// The first `k` corridor ends lie in the rooms their corridors join.
pub open spec fn ends_in_rooms(rooms: Seq<SimpleRoom>, ends: Seq<((u32, u32), (u32, u32))>) -> bool {
    forall|k: int| 0 <= k < ends.len() ==> {
        let (a, b) = link_pair(rooms.len() as int, k);
        &&& rooms[a].bounds.holds((#[trigger] ends[k]).0.0 as int, ends[k].0.1 as int)
        &&& rooms[b].bounds.holds(ends[k].1.0 as int, ends[k].1.1 as int)
    }
}

/// The tiles are the corridors joining the rooms, each from a cell of its
/// first room to a cell of its second, in order.
pub open spec fn corridors_between(rooms: Seq<SimpleRoom>, w: u32, tiles: Seq<(u32, u32)>) -> bool {
    exists|ends: Seq<((u32, u32), (u32, u32))>| ends.len() == link_count(rooms.len() as int) && ends_in_rooms(rooms, ends)
        && tiles == #[trigger] corridor_cells(ends, w)
}

/// The cell lies on a corridor between two joined rooms, from a cell of the
/// first to a cell of the second.
pub open spec fn on_some_link(rooms: Seq<SimpleRoom>, w: u32, t: (u32, u32)) -> bool {
    exists|a: int, b: int, s: (u32, u32), e: (u32, u32)|
        #![trigger linked(rooms.len() as int, a, b), l_shape(s, e, w)]
        linked(rooms.len() as int, a, b) && rooms[a].bounds.holds(s.0 as int, s.1 as int)
            && rooms[b].bounds.holds(e.0 as int, e.1 as int) && l_shape(s, e, w).contains(t)
}

/// The cells of an L-shaped corridor `width` cells wide from `start` to `end`.
pub fn l_corridor(start: (u32, u32), end: (u32, u32), width: u32) -> (tiles: Vec<(u32, u32)>)
    requires
        start.1 + width <= u32::MAX,
        end.0 + width <= u32::MAX,
    ensures
        tiles@ == l_shape(start, end, width),
{
    let mut tiles: Vec<(u32, u32)> = Vec::new();
    let min_x: u32 = if start.0 < end.0 { start.0 } else { end.0 };
    let max_x: u32 = if start.0 < end.0 { end.0 } else { start.0 };
    let ghost w = width as int;
    let mut x: u64 = min_x as u64;
    while x <= max_x as u64
        invariant
            min_x <= x <= max_x as int + 1,
            min_x == lo(start.0, end.0),
            max_x == hi(start.0, end.0),
            start.1 + width <= u32::MAX,
            w == width,
            tiles@ == Seq::new(((x - min_x) * w) as nat, |i: int| h_cell(min_x as int, start.1 as int, w, i)),
        decreases max_x as int + 1 - x,
    {
        let mut k: u32 = 0;
        while k < width
            invariant
                min_x <= x <= max_x,
                k <= width,
                start.1 + width <= u32::MAX,
                w == width,
                tiles@ == Seq::new(((x - min_x) * w + k) as nat, |i: int| h_cell(min_x as int, start.1 as int, w, i)),
            decreases width - k,
        {
            let ghost n = (x - min_x) * w + k;
            proof {
                assert(0 <= (x - min_x) * w) by (nonlinear_arith)
                    requires x >= min_x, w >= 0;
                lemma_fundamental_div_mod_converse(n, w, x - min_x, k as int);
            }
            tiles.push((x as u32, start.1 + k));
            k = k + 1;
            proof {
                assert(tiles@ =~= Seq::new(((x - min_x) * w + k) as nat, |i: int| h_cell(min_x as int, start.1 as int, w, i)));
            }
        }
        proof {
            assert((x + 1 - min_x) * w == (x - min_x) * w + w) by (nonlinear_arith);
        }
        x = x + 1;
    }
    let ghost hpart = tiles@;
    assert(hpart == h_leg(start, end, width));
    let min_y: u32 = if start.1 < end.1 { start.1 } else { end.1 };
    let max_y: u32 = if start.1 < end.1 { end.1 } else { start.1 };
    let mut y: u64 = min_y as u64;
    assert((y - min_y) * w == 0) by (nonlinear_arith)
        requires y == min_y;
    assert(tiles@ =~= hpart + Seq::new(((y - min_y) * w) as nat, |i: int| v_cell(end.0 as int, min_y as int, w, i)));
    while y <= max_y as u64
        invariant
            min_y <= y <= max_y as int + 1,
            min_y == lo(start.1, end.1),
            max_y == hi(start.1, end.1),
            end.0 + width <= u32::MAX,
            w == width,
            hpart == h_leg(start, end, width),
            tiles@ == hpart + Seq::new(((y - min_y) * w) as nat, |i: int| v_cell(end.0 as int, min_y as int, w, i)),
        decreases max_y as int + 1 - y,
    {
        let mut k: u32 = 0;
        while k < width
            invariant
                min_y <= y <= max_y,
                k <= width,
                end.0 + width <= u32::MAX,
                w == width,
                tiles@ == hpart + Seq::new(((y - min_y) * w + k) as nat, |i: int| v_cell(end.0 as int, min_y as int, w, i)),
            decreases width - k,
        {
            let ghost n = (y - min_y) * w + k;
            proof {
                assert(0 <= (y - min_y) * w) by (nonlinear_arith)
                    requires y >= min_y, w >= 0;
                lemma_fundamental_div_mod_converse(n, w, y - min_y, k as int);
            }
            tiles.push((end.0 + k, y as u32));
            k = k + 1;
            proof {
                assert(tiles@ =~= hpart + Seq::new(((y - min_y) * w + k) as nat, |i: int| v_cell(end.0 as int, min_y as int, w, i)));
            }
        }
        proof {
            assert((y + 1 - min_y) * w == (y - min_y) * w + w) by (nonlinear_arith);
        }
        y = y + 1;
    }
    tiles
}

impl SimpleRoomsAlgorithm {
    pub closed spec fn params_spec(&self) -> SimpleRoomsParams {
        self.params
    }

    pub fn new(params: SimpleRoomsParams) -> (a: Self)
        ensures
            a.params_spec() == params,
    {
        Self { params }
    }

    /// Rooms kept apart by the spacing, then the corridors that join them.
    /// Each attempt draws a size; a size that fits is placed at a drawn
    /// position with a one-cell margin, and kept unless it comes too close
    /// to a room already kept.
    pub fn generate(&self, bounds: Rectangle, rng: &mut ChaCha8Rng) -> (res: (Vec<SimpleRoom>, Vec<(u32, u32)>))
        requires
            can_generate(self.params_spec(), bounds),
        ensures
            res.0@.len() <= self.params_spec().num_rooms,
            forall|i: int| 0 <= i < res.0@.len() ==> room_placed(self.params_spec(), bounds, #[trigger] res.0@[i].bounds),
            forall|i: int, j: int|
                0 <= i < j < res.0@.len() ==> !too_close(
                    self.params_spec().room_spacing as int,
                    #[trigger] res.0@[j].bounds,
                    #[trigger] res.0@[i].bounds,
                ),
            res.0@.len() < 2 ==> res.1@.len() == 0,
            forall|k: int| 0 <= k < res.1@.len() ==> on_some_link(res.0@, self.params_spec().corridor_width, #[trigger] res.1@[k]),
            corridors_between(res.0@, self.params_spec().corridor_width, res.1@),
            (self.params_spec().num_rooms > 0 && self.params_spec().max_placement_attempts > 0 && self.params_spec().max_room_size.0
                + 2 < bounds.width && self.params_spec().max_room_size.1 + 2 < bounds.height) ==> res.0@.len() >= 1,
    {
        let p = &self.params;
        let mut rooms: Vec<SimpleRoom> = Vec::new();
        let mut attempts: u32 = 0;
        while rooms.len() < p.num_rooms as usize && attempts < p.max_placement_attempts
            invariant
                p == &self.params,
                can_generate(self.params, bounds),
                rooms@.len() <= p.num_rooms,
                attempts <= p.max_placement_attempts,
                (attempts > 0 && p.num_rooms > 0 && p.max_room_size.0 + 2 < bounds.width && p.max_room_size.1 + 2 < bounds.height)
                    ==> rooms@.len() >= 1,
                forall|i: int| 0 <= i < rooms@.len() ==> room_placed(*p, bounds, #[trigger] rooms@[i].bounds),
                forall|i: int, j: int|
                    0 <= i < j < rooms@.len() ==> !too_close(
                        p.room_spacing as int,
                        #[trigger] rooms@[j].bounds,
                        #[trigger] rooms@[i].bounds,
                    ),
            decreases p.max_placement_attempts - attempts,
        {
            let room_width = gen_range_incl_u32(rng, p.min_room_size.0, p.max_room_size.0);
            let room_height = gen_range_incl_u32(rng, p.min_room_size.1, p.max_room_size.1);
            if room_width >= bounds.width || room_height >= bounds.height {
                attempts = attempts + 1;
                continue;
            }
            let x = bounds.x + gen_range_u32(rng, 1, bounds.width - room_width - 1);
            let y = bounds.y + gen_range_u32(rng, 1, bounds.height - room_height - 1);
            let new_room = SimpleRoom { bounds: Rectangle { x, y, width: room_width, height: room_height } };
            if !self.room_overlaps(&new_room, &rooms) {
                rooms.push(new_room);
            }
            attempts = attempts + 1;
        }
        let corridors = self.connect_rooms(&rooms, rng);
        (rooms, corridors)
    }

    /// Whether `new_room` comes too close to any of `existing_rooms`.
    fn room_overlaps(&self, new_room: &SimpleRoom, existing_rooms: &Vec<SimpleRoom>) -> (b: bool)
        requires
            new_room.bounds.x + new_room.bounds.width + self.params.room_spacing <= u32::MAX,
            new_room.bounds.y + new_room.bounds.height + self.params.room_spacing <= u32::MAX,
            forall|i: int|
                0 <= i < existing_rooms@.len() ==> (#[trigger] existing_rooms@[i]).bounds.x
                    + existing_rooms@[i].bounds.width + self.params.room_spacing <= u32::MAX
                    && existing_rooms@[i].bounds.y + existing_rooms@[i].bounds.height + self.params.room_spacing
                    <= u32::MAX,
        ensures
            b == exists|i: int|
                0 <= i < existing_rooms@.len() && too_close(
                    self.params.room_spacing as int,
                    new_room.bounds,
                    #[trigger] existing_rooms@[i].bounds,
                ),
    {
        let mut i: usize = 0;
        while i < existing_rooms.len()
            invariant
                i <= existing_rooms@.len(),
                new_room.bounds.x + new_room.bounds.width + self.params.room_spacing <= u32::MAX,
                new_room.bounds.y + new_room.bounds.height + self.params.room_spacing <= u32::MAX,
                forall|k: int|
                    0 <= k < existing_rooms@.len() ==> (#[trigger] existing_rooms@[k]).bounds.x
                        + existing_rooms@[k].bounds.width + self.params.room_spacing <= u32::MAX
                        && existing_rooms@[k].bounds.y + existing_rooms@[k].bounds.height + self.params.room_spacing
                        <= u32::MAX,
                forall|k: int|
                    0 <= k < i ==> !too_close(
                        self.params.room_spacing as int,
                        new_room.bounds,
                        #[trigger] existing_rooms@[k].bounds,
                    ),
            decreases existing_rooms@.len() - i,
        {
            if self.rooms_intersect(new_room, &existing_rooms[i]) {
                return true;
            }
            i = i + 1;
        }
        false
    }

    /// Whether the two rooms come closer than the spacing on both axes.
    fn rooms_intersect(&self, room1: &SimpleRoom, room2: &SimpleRoom) -> (b: bool)
        requires
            room1.bounds.x + room1.bounds.width + self.params.room_spacing <= u32::MAX,
            room1.bounds.y + room1.bounds.height + self.params.room_spacing <= u32::MAX,
            room2.bounds.x + room2.bounds.width + self.params.room_spacing <= u32::MAX,
            room2.bounds.y + room2.bounds.height + self.params.room_spacing <= u32::MAX,
        ensures
            b == too_close(self.params.room_spacing as int, room1.bounds, room2.bounds),
    {
        let spacing = self.params.room_spacing;
        room1.bounds.x < room2.bounds.x + room2.bounds.width + spacing
            && room1.bounds.x + room1.bounds.width + spacing > room2.bounds.x
            && room1.bounds.y < room2.bounds.y + room2.bounds.height + spacing
            && room1.bounds.y + room1.bounds.height + spacing > room2.bounds.y
    }

    /// Corridors joining each room to the next, and the last room back to
    /// the first when there are more than two.
    fn connect_rooms(&self, rooms: &Vec<SimpleRoom>, rng: &mut ChaCha8Rng) -> (tiles: Vec<(u32, u32)>)
        requires
            rooms@.len() >= 2 ==> forall|i: int|
                0 <= i < rooms@.len() ==> {
                    &&& (#[trigger] rooms@[i]).bounds.width >= 1
                    &&& rooms@[i].bounds.height >= 1
                    &&& rooms@[i].bounds.x + rooms@[i].bounds.width + self.params.corridor_width <= u32::MAX
                    &&& rooms@[i].bounds.y + rooms@[i].bounds.height + self.params.corridor_width <= u32::MAX
                },
        ensures
            rooms@.len() < 2 ==> tiles@.len() == 0,
            forall|k: int| 0 <= k < tiles@.len() ==> on_some_link(rooms@, self.params.corridor_width, #[trigger] tiles@[k]),
            corridors_between(rooms@, self.params.corridor_width, tiles@),
    {
        let mut corridor_tiles: Vec<(u32, u32)> = Vec::new();
        let ghost mut ends: Seq<((u32, u32), (u32, u32))> = Seq::empty();
        if rooms.len() < 2 {
            proof {
                assert(corridor_cells(ends, self.params.corridor_width) =~= corridor_tiles@);
            }
            return corridor_tiles;
        }
        proof {
            assert(corridor_cells(ends, self.params.corridor_width) =~= corridor_tiles@);
        }
        let n = rooms.len();
        let mut i: usize = 0;
        while i < n - 1
            invariant
                n == rooms@.len(),
                n >= 2,
                i <= n - 1,
                forall|j: int|
                    0 <= j < rooms@.len() ==> {
                        &&& (#[trigger] rooms@[j]).bounds.width >= 1
                        &&& rooms@[j].bounds.height >= 1
                        &&& rooms@[j].bounds.x + rooms@[j].bounds.width + self.params.corridor_width <= u32::MAX
                        &&& rooms@[j].bounds.y + rooms@[j].bounds.height + self.params.corridor_width <= u32::MAX
                    },
                forall|k: int|
                    0 <= k < corridor_tiles@.len() ==> on_some_link(rooms@, self.params.corridor_width, #[trigger] corridor_tiles@[k]),
                ends.len() == i,
                ends_in_rooms(rooms@, ends),
                corridor_tiles@ == corridor_cells(ends, self.params.corridor_width),
            decreases n - 1 - i,
        {
            let tiles = self.create_corridor(&rooms[i], &rooms[i + 1], rng);
            proof {
                assert(linked(n as int, i as int, i + 1));
                self.lemma_extend_links(rooms@, corridor_tiles@, tiles@, i as int, i + 1);
                let (s, e) = choose|s: (u32, u32), e: (u32, u32)|
                    rooms@[i as int].bounds.holds(s.0 as int, s.1 as int) && rooms@[i + 1].bounds.holds(e.0 as int, e.1 as int)
                        && tiles@ == #[trigger] l_shape(s, e, self.params.corridor_width);
                self.lemma_ends_push(rooms@, ends, corridor_tiles@, s, e, tiles@);
                ends = ends.push((s, e));
            }
            let mut tiles = tiles;
            corridor_tiles.append(&mut tiles);
            i = i + 1;
        }
        if n > 2 {
            let tiles = self.create_corridor(&rooms[n - 1], &rooms[0], rng);
            proof {
                assert(linked(n as int, n - 1, 0));
                self.lemma_extend_links(rooms@, corridor_tiles@, tiles@, n - 1, 0);
                let (s, e) = choose|s: (u32, u32), e: (u32, u32)|
                    rooms@[n - 1].bounds.holds(s.0 as int, s.1 as int) && rooms@[0].bounds.holds(e.0 as int, e.1 as int)
                        && tiles@ == #[trigger] l_shape(s, e, self.params.corridor_width);
                self.lemma_ends_push(rooms@, ends, corridor_tiles@, s, e, tiles@);
                ends = ends.push((s, e));
            }
            let mut tiles = tiles;
            corridor_tiles.append(&mut tiles);
        }
        proof {
            assert(ends.len() == link_count(n as int));
            assert(corridors_between(rooms@, self.params.corridor_width, corridor_tiles@));
        }
        corridor_tiles
    }

    proof fn lemma_ends_push(
        &self,
        rooms: Seq<SimpleRoom>,
        ends: Seq<((u32, u32), (u32, u32))>,
        before: Seq<(u32, u32)>,
        s: (u32, u32),
        e: (u32, u32),
        added: Seq<(u32, u32)>,
    )
        requires
            ends_in_rooms(rooms, ends),
            before == corridor_cells(ends, self.params.corridor_width),
            added == l_shape(s, e, self.params.corridor_width),
            rooms[link_pair(rooms.len() as int, ends.len() as int).0].bounds.holds(s.0 as int, s.1 as int),
            rooms[link_pair(rooms.len() as int, ends.len() as int).1].bounds.holds(e.0 as int, e.1 as int),
        ensures
            ends_in_rooms(rooms, ends.push((s, e))),
            before + added == corridor_cells(ends.push((s, e)), self.params.corridor_width),
    {
        let es = ends.push((s, e));
        assert(es.drop_last() =~= ends);
        assert forall|k: int| 0 <= k < es.len() implies {
            let (a, b) = link_pair(rooms.len() as int, k);
            &&& rooms[a].bounds.holds((#[trigger] es[k]).0.0 as int, es[k].0.1 as int)
            &&& rooms[b].bounds.holds(es[k].1.0 as int, es[k].1.1 as int)
        } by {
            if k < ends.len() {
                assert(es[k] == ends[k]);
            }
        }
    }

    proof fn lemma_extend_links(&self, rooms: Seq<SimpleRoom>, before: Seq<(u32, u32)>, added: Seq<(u32, u32)>, a: int, b: int)
        requires
            linked(rooms.len() as int, a, b),
            forall|k: int| 0 <= k < before.len() ==> on_some_link(rooms, self.params.corridor_width, #[trigger] before[k]),
            exists|s: (u32, u32), e: (u32, u32)|
                rooms[a].bounds.holds(s.0 as int, s.1 as int) && rooms[b].bounds.holds(e.0 as int, e.1 as int)
                    && added == #[trigger] l_shape(s, e, self.params.corridor_width),
        ensures
            forall|k: int| 0 <= k < (before + added).len() ==> on_some_link(rooms, self.params.corridor_width, #[trigger] (before + added)[k]),
    {
        let (s, e) = choose|s: (u32, u32), e: (u32, u32)|
            rooms[a].bounds.holds(s.0 as int, s.1 as int) && rooms[b].bounds.holds(e.0 as int, e.1 as int)
                && added == #[trigger] l_shape(s, e, self.params.corridor_width);
        assert forall|k: int| 0 <= k < (before + added).len() implies on_some_link(rooms, self.params.corridor_width, #[trigger] (before + added)[k]) by {
            if k < before.len() {
                assert((before + added)[k] == before[k]);
            } else {
                let t = (before + added)[k];
                assert(t == added[k - before.len()]);
                assert(l_shape(s, e, self.params.corridor_width).contains(t));
                assert(linked(rooms.len() as int, a, b));
            }
        }
    }

    /// An L-shaped corridor from a drawn cell of `room1` to a drawn cell of
    /// `room2`.
    fn create_corridor(&self, room1: &SimpleRoom, room2: &SimpleRoom, rng: &mut ChaCha8Rng) -> (tiles: Vec<(u32, u32)>)
        requires
            room1.bounds.width >= 1,
            room1.bounds.height >= 1,
            room2.bounds.width >= 1,
            room2.bounds.height >= 1,
            room1.bounds.x + room1.bounds.width <= u32::MAX,
            room1.bounds.y + room1.bounds.height + self.params.corridor_width <= u32::MAX,
            room2.bounds.x + room2.bounds.width + self.params.corridor_width <= u32::MAX,
            room2.bounds.y + room2.bounds.height <= u32::MAX,
        ensures
            exists|s: (u32, u32), e: (u32, u32)|
                room1.bounds.holds(s.0 as int, s.1 as int) && room2.bounds.holds(e.0 as int, e.1 as int)
                    && tiles@ == #[trigger] l_shape(s, e, self.params.corridor_width),
    {
        let start_x = room1.bounds.x + gen_range_u32(rng, 0, room1.bounds.width);
        let start_y = room1.bounds.y + gen_range_u32(rng, 0, room1.bounds.height);
        let end_x = room2.bounds.x + gen_range_u32(rng, 0, room2.bounds.width);
        let end_y = room2.bounds.y + gen_range_u32(rng, 0, room2.bounds.height);
        let tiles = l_corridor((start_x, start_y), (end_x, end_y), self.params.corridor_width);
        proof {
            assert(room1.bounds.holds(start_x as int, start_y as int));
            assert(room2.bounds.holds(end_x as int, end_y as int));
        }
        tiles
    }
}

} // verus!
