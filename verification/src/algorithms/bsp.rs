//! Binary space partitioning: the area is split in two again and again,
//! each leaf gets a room, and sibling subtrees are joined by corridors.
//! Split ratios are in millionths.

use vstd::prelude::*;
use rand_chacha::ChaCha8Rng;
use crate::structures::{Rectangle, Room, Corridor};
use crate::rng::{gen_range_u32, gen_range_incl_u32};

verus! {

/// Settings of the partition.
#[derive(Debug, Clone, Copy)]
pub struct BSPParams {
    pub min_room_size: (u32, u32),
    pub max_room_size: (u32, u32),
    pub corridor_width: u32,
    pub max_depth: u32,
    pub split_ratio_min: u32,
    pub split_ratio_max: u32,
}

impl Default for BSPParams {
    fn default() -> (p: Self)
        ensures
            p.min_room_size == (4u32, 4u32),
            p.max_room_size == (12u32, 8u32),
            p.corridor_width == 1,
            p.max_depth == 5,
            p.split_ratio_min == 300_000,
            p.split_ratio_max == 700_000,
    {
        BSPParams {
            min_room_size: (4, 4),
            max_room_size: (12, 8),
            corridor_width: 1,
            max_depth: 5,
            split_ratio_min: 300_000,
            split_ratio_max: 700_000,
        }
    }
}

/// A node of the partition: a leaf holds a room, an inner node two halves.
#[derive(Debug)]
pub struct BSPNode {
    pub bounds: Rectangle,
    pub room: Option<Room>,
    pub left: Option<Box<BSPNode>>,
    pub right: Option<Box<BSPNode>>,
    pub depth: u32,
}

/// Partitions areas with the given settings.
pub struct BSPAlgorithm {
    pub params: BSPParams,
}

/// Rectangle `a` lies inside rectangle `b`.
pub open spec fn inside(a: Rectangle, b: Rectangle) -> bool {
    b.x <= a.x && a.x + a.width <= b.x + b.width && b.y <= a.y && a.y + a.height <= b.y + b.height
}

/// The node's own room, as a sequence of zero or one rooms.
pub open spec fn own_rooms(n: BSPNode) -> Seq<Room> {
    match n.room {
        Some(r) => seq![r],
        None => Seq::empty(),
    }
}

/// The rooms of a tree, leaf by leaf from left to right.
pub open spec fn rooms_of(n: BSPNode) -> Seq<Room>
    decreases n,
{
    let own = own_rooms(n);
    let l = match n.left {
        Some(b) => rooms_of(*b),
        None => Seq::empty(),
    };
    let r = match n.right {
        Some(b) => rooms_of(*b),
        None => Seq::empty(),
    };
    own + l + r
}

/// Every node's room and children lie inside its bounds, and its bounds
/// inside `outer`.
pub open spec fn nested(n: BSPNode, outer: Rectangle) -> bool
    decreases n,
{
    &&& inside(n.bounds, outer)
    &&& n.bounds.fits()
    &&& (n.room matches Some(r) ==> inside(r.bounds, n.bounds))
    &&& (n.left matches Some(b) ==> nested(*b, n.bounds))
    &&& (n.right matches Some(b) ==> nested(*b, n.bounds))
}

proof fn lemma_inside_trans(a: Rectangle, b: Rectangle, c: Rectangle)
    requires
        inside(a, b),
        inside(b, c),
    ensures
        inside(a, c),
{
}

/// Every room of a nested tree lies inside the outer bounds.
proof fn lemma_rooms_inside(n: BSPNode, outer: Rectangle)
    requires
        nested(n, outer),
    ensures
        forall|k: int| 0 <= k < rooms_of(n).len() ==> inside((#[trigger] rooms_of(n)[k]).bounds, outer),
    decreases n,
{
    let own = match n.room {
        Some(r) => seq![r],
        None => Seq::<Room>::empty(),
    };
    let l = match n.left {
        Some(b) => rooms_of(*b),
        None => Seq::<Room>::empty(),
    };
    let r = match n.right {
        Some(b) => rooms_of(*b),
        None => Seq::<Room>::empty(),
    };
    match n.left {
        Some(b) => lemma_rooms_inside(*b, n.bounds),
        None => {},
    }
    match n.right {
        Some(b) => lemma_rooms_inside(*b, n.bounds),
        None => {},
    }
    assert(rooms_of(n) == own + l + r);
    assert forall|k: int| 0 <= k < rooms_of(n).len() implies inside((#[trigger] rooms_of(n)[k]).bounds, outer) by {
        if k < own.len() {
            assert(rooms_of(n)[k] == own[k]);
        } else if k < own.len() + l.len() {
            assert(rooms_of(n)[k] == l[k - own.len()]);
            lemma_inside_trans(l[k - own.len()].bounds, n.bounds, outer);
        } else {
            assert(rooms_of(n)[k] == r[k - own.len() - l.len()]);
            lemma_inside_trans(r[k - own.len() - l.len()].bounds, n.bounds, outer);
        }
    }
}

/// A copy of a room.
fn copy_room(r: &Room) -> (c: Room)
    ensures
        c == *r,
{
    Room { bounds: r.bounds, room_type: r.room_type.clone(), depth_from_entrance: r.depth_from_entrance }
}

/// The centre of a rectangle, rounding down.
pub open spec fn centre(b: Rectangle) -> (u32, u32) {
    ((b.x + b.width / 2) as u32, (b.y + b.height / 2) as u32)
}

/// Squared distance between two points.
pub open spec fn dist2(a: (u32, u32), b: (u32, u32)) -> int {
    (a.0 - b.0) * (a.0 - b.0) + (a.1 - b.1) * (a.1 - b.1)
}

/// The centre of a rectangle that fits in `u32`.
fn centre_of(b: &Rectangle) -> (c: (u32, u32))
    requires
        b.fits(),
    ensures
        c == centre(*b),
{
    (b.x + b.width / 2, b.y + b.height / 2)
}

/// Squared distance between two points.
fn dist2_exec(a: (u32, u32), b: (u32, u32)) -> (d: u128)
    ensures
        d == dist2(a, b),
{
    let dx = a.0 as i128 - b.0 as i128;
    let dy = a.1 as i128 - b.1 as i128;
    proof {
        assert(0 <= dx * dx <= 0x1_0000_0000_0000_0000) by (nonlinear_arith)
            requires
                -0x1_0000_0000 <= dx <= 0x1_0000_0000,
        ;
        assert(0 <= dy * dy <= 0x1_0000_0000_0000_0000) by (nonlinear_arith)
            requires
                -0x1_0000_0000 <= dy <= 0x1_0000_0000,
        ;
    }
    (dx * dx + dy * dy) as u128
}

impl BSPAlgorithm {
    /// An algorithm with the given settings.
    pub fn new(params: BSPParams) -> (a: Self)
        ensures
            a.params == params,
    {
        BSPAlgorithm { params }
    }

    /// A room inside the bounds: its size drawn between the minimum and the
    /// smaller of the maximum and the bounds (or that smaller value where the
    /// minimum does not fit), its position drawn among those that keep it
    /// inside.
    pub fn create_room(&self, bounds: &Rectangle, rng: &mut ChaCha8Rng) -> (r: Room)
        requires
            bounds.fits(),
        ensures
            inside(r.bounds, *bounds),
            r.room_type@ == "chamber"@,
            r.depth_from_entrance == 0,
    {
        let max_width = if bounds.width < self.params.max_room_size.0 { bounds.width } else { self.params.max_room_size.0 };
        let max_height = if bounds.height < self.params.max_room_size.1 { bounds.height } else { self.params.max_room_size.1 };
        let width = if self.params.min_room_size.0 <= max_width {
            gen_range_incl_u32(rng, self.params.min_room_size.0, max_width)
        } else {
            max_width
        };
        let height = if self.params.min_room_size.1 <= max_height {
            gen_range_incl_u32(rng, self.params.min_room_size.1, max_height)
        } else {
            max_height
        };
        let max_x_offset = if bounds.width > width { bounds.width - width } else { 0 };
        let max_y_offset = if bounds.height > height { bounds.height - height } else { 0 };
        let x = bounds.x + if max_x_offset > 0 { gen_range_incl_u32(rng, 0, max_x_offset) } else { 0 };
        let y = bounds.y + if max_y_offset > 0 { gen_range_incl_u32(rng, 0, max_y_offset) } else { 0 };
        Room {
            bounds: Rectangle::new(x, y, width, height),
            room_type: String::from_str("chamber"),
            depth_from_entrance: 0,
        }
    }

    /// Split the bounds in two at a drawn ratio: across (top and bottom
    /// halves) when `horizontal`, else side by side.
    pub fn split_bounds(&self, bounds: Rectangle, horizontal: bool, rng: &mut ChaCha8Rng) -> (r: (Rectangle, Rectangle))
        requires
            bounds.fits(),
            self.params.split_ratio_min <= self.params.split_ratio_max <= 1_000_000,
        ensures
            inside(r.0, bounds),
            inside(r.1, bounds),
            r.0.fits(),
            r.1.fits(),
            horizontal ==> r.0.x == bounds.x && r.1.x == bounds.x && r.0.width == bounds.width && r.1.width == bounds.width
                && r.0.y == bounds.y && r.1.y == r.0.y + r.0.height && r.1.y + r.1.height == bounds.y + bounds.height,
            !horizontal ==> r.0.y == bounds.y && r.1.y == bounds.y && r.0.height == bounds.height && r.1.height
                == bounds.height && r.0.x == bounds.x && r.1.x == r.0.x + r.0.width && r.1.x + r.1.width == bounds.x
                + bounds.width,
    {
        let ratio = gen_range_incl_u32(rng, self.params.split_ratio_min, self.params.split_ratio_max);
        if horizontal {
            proof {
                assert(bounds.height as u64 * ratio as u64 <= bounds.height as u64 * 1_000_000) by (nonlinear_arith)
                    requires
                        ratio <= 1_000_000,
                ;
                assert(bounds.height as u64 * 1_000_000 <= 0xffff_ffff * 1_000_000);
            }
            let part = ((bounds.height as u64 * ratio as u64) / 1_000_000) as u32;
            let split_y = bounds.y + part;
            let left = Rectangle::new(bounds.x, bounds.y, bounds.width, split_y - bounds.y);
            let right = Rectangle::new(bounds.x, split_y, bounds.width, bounds.y + bounds.height - split_y);
            (left, right)
        } else {
            proof {
                assert(bounds.width as u64 * ratio as u64 <= bounds.width as u64 * 1_000_000) by (nonlinear_arith)
                    requires
                        ratio <= 1_000_000,
                ;
                assert(bounds.width as u64 * 1_000_000 <= 0xffff_ffff * 1_000_000);
            }
            let part = ((bounds.width as u64 * ratio as u64) / 1_000_000) as u32;
            let split_x = bounds.x + part;
            let left = Rectangle::new(bounds.x, bounds.y, split_x - bounds.x, bounds.height);
            let right = Rectangle::new(split_x, bounds.y, bounds.x + bounds.width - split_x, bounds.height);
            (left, right)
        }
    }

    /// Partition the bounds: stop with a room at the maximum depth or when the
    /// area is under twice the minimum room size; else split along the longer
    /// axis (by a coin flip when neither is twice the other) and recurse.
    pub fn partition(&self, bounds: Rectangle, depth: u32, rng: &mut ChaCha8Rng) -> (n: BSPNode)
        requires
            bounds.fits(),
            self.params.split_ratio_min <= self.params.split_ratio_max <= 1_000_000,
            depth <= self.params.max_depth,
        ensures
            nested(n, bounds),
            n.bounds == bounds,
            n.depth == depth,
            rooms_of(n).len() > 0,
        decreases self.params.max_depth - depth,
    {
        let min_w = self.params.min_room_size.0 as u64 * 2;
        let min_h = self.params.min_room_size.1 as u64 * 2;
        if depth >= self.params.max_depth || (bounds.width as u64) < min_w || (bounds.height as u64) < min_h {
            let room = self.create_room(&bounds, rng);
            return BSPNode { bounds, room: Some(room), left: None, right: None, depth };
        }
        let split_horizontal = if bounds.width as u64 > bounds.height as u64 * 2 {
            false
        } else if bounds.height as u64 > bounds.width as u64 * 2 {
            true
        } else {
            gen_range_u32(rng, 0, 2) == 0
        };
        let (lb, rb) = self.split_bounds(bounds, split_horizontal, rng);
        let left = self.partition(lb, depth + 1, rng);
        let right = self.partition(rb, depth + 1, rng);
        assert(nested(left, bounds));
        assert(nested(right, bounds));
        BSPNode { bounds, room: None, left: Some(Box::new(left)), right: Some(Box::new(right)), depth }
    }

    /// The rooms of a tree, leaf by leaf from left to right.
    pub fn collect_rooms(node: &BSPNode) -> (rooms: Vec<Room>)
        ensures
            rooms@ == rooms_of(*node),
        decreases node,
    {
        let mut rooms: Vec<Room> = Vec::new();
        match &node.room {
            Some(r) => rooms.push(copy_room(r)),
            None => {},
        }
        match &node.left {
            Some(b) => {
                let mut more = Self::collect_rooms(b);
                rooms.append(&mut more);
            },
            None => {},
        }
        match &node.right {
            Some(b) => {
                let mut more = Self::collect_rooms(b);
                rooms.append(&mut more);
            },
            None => {},
        }
        rooms
    }
}

/// Every room fits in `u32` coordinates.
pub open spec fn rooms_fit(rooms: Seq<Room>) -> bool {
    forall|k: int| 0 <= k < rooms.len() ==> (#[trigger] rooms[k]).bounds.fits()
}

/// The corridor starts at the centre of one of the rooms.
pub open spec fn starts_in(c: Corridor, rooms: Seq<Room>) -> bool {
    exists|k: int| 0 <= k < rooms.len() && c.start == centre((#[trigger] rooms[k]).bounds)
}

proof fn lemma_nested_rooms_fit(n: BSPNode, outer: Rectangle)
    requires
        nested(n, outer),
        outer.fits(),
    ensures
        rooms_fit(rooms_of(n)),
{
    lemma_rooms_inside(n, outer);
}

/// Rooms `i` of `from` and `j` of `to` are a closest pair by centre distance.
pub open spec fn closest_pair(from: Seq<Room>, to: Seq<Room>, i: int, j: int) -> bool {
    &&& 0 <= i < from.len()
    &&& 0 <= j < to.len()
    &&& forall|a: int, b: int| 0 <= a < from.len() && 0 <= b < to.len() ==> dist2(centre(from[i].bounds), centre(to[j].bounds))
        <= dist2(centre((#[trigger] from[a]).bounds), centre((#[trigger] to[b]).bounds))
}

/// How many corridors `connect_rooms` lays for the tree: one for each inner
/// node whose two halves both hold rooms.
pub open spec fn corridor_count(node: BSPNode) -> nat
    decreases node,
{
    match node.left {
        Some(l) => match node.right {
            Some(r) => (if rooms_of(*l).len() > 0 && rooms_of(*r).len() > 0 { 1nat } else { 0nat }) + corridor_count(*l)
                + corridor_count(*r),
            None => 0,
        },
        None => 0,
    }
}

impl BSPAlgorithm {
    /// The room of `from_rooms` in the closest pair (by centre distance) with
    /// a room of `to_rooms`; the first such pair in order wins ties.
    pub fn closest_room(from_rooms: &Vec<Room>, to_rooms: &Vec<Room>) -> (r: Option<usize>)
        requires
            rooms_fit(from_rooms@),
            rooms_fit(to_rooms@),
        ensures
            r is None <==> (from_rooms@.len() == 0 || to_rooms@.len() == 0),
            r matches Some(i) ==> i < from_rooms@.len() && exists|j: int| #[trigger] closest_pair(from_rooms@, to_rooms@, i as int, j),
    {
        let mut best: Option<(usize, usize, u128)> = None;
        let mut a: usize = 0;
        while a < from_rooms.len()
            invariant
                a <= from_rooms@.len(),
                rooms_fit(from_rooms@),
                rooms_fit(to_rooms@),
                best is None <==> (a == 0 || to_rooms@.len() == 0),
                best matches Some((i, j, d)) ==> i < a && j < to_rooms@.len() && d == dist2(
                    centre(from_rooms@[i as int].bounds),
                    centre(to_rooms@[j as int].bounds),
                ) && forall|x: int, y: int| 0 <= x < a && 0 <= y < to_rooms@.len() ==> d <= dist2(
                    centre((#[trigger] from_rooms@[x]).bounds),
                    centre((#[trigger] to_rooms@[y]).bounds),
                ),
            decreases from_rooms@.len() - a,
        {
            let ca = centre_of(&from_rooms[a].bounds);
            let mut b: usize = 0;
            while b < to_rooms.len()
                invariant
                    a < from_rooms@.len(),
                    b <= to_rooms@.len(),
                    rooms_fit(from_rooms@),
                    rooms_fit(to_rooms@),
                    ca == centre(from_rooms@[a as int].bounds),
                    best is None <==> ((a == 0 && b == 0) || to_rooms@.len() == 0),
                    best matches Some((i, j, d)) ==> i <= a && j < to_rooms@.len() && d == dist2(
                        centre(from_rooms@[i as int].bounds),
                        centre(to_rooms@[j as int].bounds),
                    ) && (forall|x: int, y: int| 0 <= x < a && 0 <= y < to_rooms@.len() ==> d <= dist2(
                        centre((#[trigger] from_rooms@[x]).bounds),
                        centre((#[trigger] to_rooms@[y]).bounds),
                    )) && (forall|y: int| 0 <= y < b ==> d <= dist2(ca, centre((#[trigger] to_rooms@[y]).bounds))),
                decreases to_rooms@.len() - b,
            {
                let d = dist2_exec(ca, centre_of(&to_rooms[b].bounds));
                let better = match best {
                    Some((_, _, bd)) => d < bd,
                    None => true,
                };
                if better {
                    best = Some((a, b, d));
                }
                b = b + 1;
            }
            a = a + 1;
        }
        match best {
            Some((i, j, _)) => {
                assert(closest_pair(from_rooms@, to_rooms@, i as int, j as int));
                let r = Some(i);
                assert(r matches Some(k) && k < from_rooms@.len() && exists|jj: int| #[trigger] closest_pair(from_rooms@, to_rooms@, k as int, jj));
                r
            },
            None => None,
        }
    }

    /// A corridor from the centre of the first room to a corner: either below
    /// or beside the second room's centre, by a coin flip.
    pub fn create_corridor(&self, room1: &Room, room2: &Room, rng: &mut ChaCha8Rng) -> (c: Corridor)
        requires
            room1.bounds.fits(),
            room2.bounds.fits(),
        ensures
            c.start == centre(room1.bounds),
            c.end == (centre(room1.bounds).0, centre(room2.bounds).1) || c.end == (
                centre(room2.bounds).0,
                centre(room1.bounds).1,
            ),
            c.width == self.params.corridor_width,
    {
        let c1 = centre_of(&room1.bounds);
        let c2 = centre_of(&room2.bounds);
        let corner = if gen_range_u32(rng, 0, 2) == 0 {
            (c1.0, c2.1)
        } else {
            (c2.0, c1.1)
        };
        Corridor { start: c1, end: corner, width: self.params.corridor_width }
    }

    /// Corridors joining the two halves of every inner node (between the
    /// closest rooms of the halves, where both halves hold rooms), then
    /// those within each half; each is as wide as the parameters say.
    pub fn connect_rooms(&self, node: &BSPNode, rng: &mut ChaCha8Rng) -> (cs: Vec<Corridor>)
        requires
            rooms_fit(rooms_of(*node)),
        ensures
            forall|k: int| 0 <= k < cs@.len() ==> starts_in(#[trigger] cs@[k], rooms_of(*node)),
            cs@.len() == corridor_count(*node),
            forall|k: int| 0 <= k < cs@.len() ==> (#[trigger] cs@[k]).width == self.params.corridor_width,
        decreases node,
    {
        let mut corridors: Vec<Corridor> = Vec::new();
        match (&node.left, &node.right) {
            (Some(l), Some(r)) => {
                let ghost own = own_rooms(*node);
                let ghost all = rooms_of(*node);
                proof {
                    assert(all == own + rooms_of(**l) + rooms_of(**r));
                    assert forall|k: int| 0 <= k < rooms_of(**l).len() implies #[trigger] rooms_of(**l)[k] == all[own.len() + k] by {}
                    assert forall|k: int| 0 <= k < rooms_of(**r).len() implies #[trigger] rooms_of(**r)[k] == all[own.len() + rooms_of(**l).len() + k] by {}
                }
                let lrooms = Self::collect_rooms(l);
                let rrooms = Self::collect_rooms(r);
                let a = Self::closest_room(&lrooms, &rrooms);
                let b = Self::closest_room(&rrooms, &lrooms);
                match (a, b) {
                    (Some(ai), Some(bi)) => {
                        let c = self.create_corridor(&lrooms[ai], &rrooms[bi], rng);
                        corridors.push(c);
                        proof {
                            assert(lrooms@[ai as int] == all[own.len() + ai]);
                            assert(starts_in(c, all));
                        }
                    },
                    _ => {},
                }
                let mut more = self.connect_rooms(l, rng);
                let ghost before = corridors@;
                let ghost more_v = more@;
                corridors.append(&mut more);
                proof {
                    assert forall|k: int| 0 <= k < corridors@.len() implies starts_in(#[trigger] corridors@[k], all) by {
                        if k >= before.len() {
                            let c = corridors@[k];
                            assert(starts_in(c, rooms_of(**l)));
                            let m = choose|m: int| 0 <= m < rooms_of(**l).len() && c.start == centre((#[trigger] rooms_of(**l)[m]).bounds);
                            assert(all[own.len() + m] == rooms_of(**l)[m]);
                        } else {
                            assert(corridors@[k] == before[k]);
                        }
                    }
                    assert forall|k: int| 0 <= k < corridors@.len() implies (#[trigger] corridors@[k]).width == self.params.corridor_width by {
                        if k < before.len() {
                            assert(corridors@[k] == before[k]);
                        } else {
                            assert(corridors@[k] == more_v[k - before.len()]);
                        }
                    }
                }
                let mut more2 = self.connect_rooms(r, rng);
                let ghost before2 = corridors@;
                let ghost more2_v = more2@;
                corridors.append(&mut more2);
                proof {
                    assert forall|k: int| 0 <= k < corridors@.len() implies starts_in(#[trigger] corridors@[k], all) by {
                        if k >= before2.len() {
                            let c = corridors@[k];
                            assert(starts_in(c, rooms_of(**r)));
                            let m = choose|m: int| 0 <= m < rooms_of(**r).len() && c.start == centre((#[trigger] rooms_of(**r)[m]).bounds);
                            assert(all[own.len() + rooms_of(**l).len() + m] == rooms_of(**r)[m]);
                        } else {
                            assert(corridors@[k] == before2[k]);
                        }
                    }
                    assert forall|k: int| 0 <= k < corridors@.len() implies (#[trigger] corridors@[k]).width == self.params.corridor_width by {
                        if k < before2.len() {
                            assert(corridors@[k] == before2[k]);
                        } else {
                            assert(corridors@[k] == more2_v[k - before2.len()]);
                        }
                    }
                }
            },
            _ => {},
        }
        corridors
    }

    /// Partition the bounds, and return the leaves' rooms and the corridors
    /// joining them.
    pub fn generate(&self, bounds: Rectangle, rng: &mut ChaCha8Rng) -> (r: (Vec<Room>, Vec<Corridor>))
        requires
            bounds.fits(),
            self.params.split_ratio_min <= self.params.split_ratio_max <= 1_000_000,
        ensures
            r.0@.len() > 0,
            forall|k: int| 0 <= k < r.0@.len() ==> inside((#[trigger] r.0@[k]).bounds, bounds),
            forall|k: int| 0 <= k < r.1@.len() ==> starts_in(#[trigger] r.1@[k], r.0@),
    {
        let root = self.partition(bounds, 0, rng);
        proof {
            lemma_rooms_inside(root, bounds);
            lemma_nested_rooms_fit(root, bounds);
        }
        let rooms = Self::collect_rooms(&root);
        let corridors = self.connect_rooms(&root, rng);
        (rooms, corridors)
    }
}

} // verus!
