//! Drunkard's walk: walkers stagger about a rectangle, carving where they
//! step, turning and spawning companions at random.

use vstd::prelude::*;
use rand_chacha::ChaCha8Rng;
use crate::structures::Rectangle;
use crate::rng::gen_range_u32;
use crate::layered::CHANCE_SCALE;

verus! {

/// Parameters of the walk. The two chances are kept as millionths.
#[derive(Debug, Clone, Copy)]
pub struct DrunkardWalkParams {
    pub num_walkers: u32,
    pub steps_per_walker: u32,
    pub change_direction_chance: u32,
    pub spawn_new_walker_chance: u32,
    pub max_walkers: u32,
    pub carve_radius: u32,
}

impl Default for DrunkardWalkParams {
    fn default() -> (p: Self)
        ensures
            p.num_walkers == 2,
            p.steps_per_walker == 100,
            p.change_direction_chance == 150_000,
            p.spawn_new_walker_chance == 20_000,
            p.max_walkers == 4,
            p.carve_radius == 0,
    {
        DrunkardWalkParams {
            num_walkers: 2,
            steps_per_walker: 100,
            change_direction_chance: 150_000,
            spawn_new_walker_chance: 20_000,
            max_walkers: 4,
            carve_radius: 0,
        }
    }
}

/// A walker: where it stands, where it heads and how many steps it has left.
#[derive(Debug, Clone, Copy)]
struct Walker {
    x: u32,
    y: u32,
    direction: (i32, i32),
    steps_remaining: u32,
}

/// The walk with its parameters.
pub struct DrunkardWalkAlgorithm {
    pub params: DrunkardWalkParams,
}

/// Rounds of the walk before it is cut off.
pub const MAX_ITERATIONS: u32 = 10000;

/// The cell lies at least one cell inside every edge of the bounds.
pub open spec fn inner(b: Rectangle, x: int, y: int) -> bool {
    b.x + 1 <= x <= b.x + b.width - 2 && b.y + 1 <= y <= b.y + b.height - 2
}

/// One of the four compass steps.
pub open spec fn compass(d: (i32, i32)) -> bool {
    d == (0i32, -1i32) || d == (1i32, 0i32) || d == (0i32, 1i32) || d == (-1i32, 0i32)
}

/// A walker inside the bounds, heading along a compass step, with steps left.
spec fn walker_ok(w: Walker, b: Rectangle) -> bool {
    inner(b, w.x as int, w.y as int) && compass(w.direction) && w.steps_remaining >= 1
}

/// What the walk may carve: cells inside the bounds, and with no carve
/// radius only cells off the bounds' edges.
pub open spec fn carvable(b: Rectangle, radius: u32, t: (u32, u32)) -> bool {
    &&& b.holds(t.0 as int, t.1 as int)
    &&& (radius == 0 ==> inner(b, t.0 as int, t.1 as int))
}

/// The bounds the walk needs: its edges fit in `i32`, and with walkers it
/// is at least three cells each way.
pub open spec fn walk_bounds_ok(p: DrunkardWalkParams, b: Rectangle) -> bool {
    &&& b.x + b.width <= i32::MAX
    &&& b.y + b.height <= i32::MAX
    &&& (p.num_walkers > 0 ==> b.width >= 3 && b.height >= 3 && p.steps_per_walker >= 1)
    &&& p.carve_radius * 2 < u32::MAX
}

impl DrunkardWalkAlgorithm {
    pub fn new(params: DrunkardWalkParams) -> (a: Self)
        ensures
            a.params == params,
    {
        Self { params }
    }

    /// Carved cells inside the bounds, with repeats, in the order they were
    /// carved. With no walkers nothing is carved; otherwise something is.
    /// Where the walkers start, turn and spawn is drawn from the random
    /// source and is not stated.
    pub fn generate(&self, bounds: Rectangle, rng: &mut ChaCha8Rng) -> (carved: Vec<(u32, u32)>)
        requires
            walk_bounds_ok(self.params, bounds),
        ensures
            self.params.num_walkers == 0 ==> carved@.len() == 0,
            self.params.num_walkers > 0 ==> carved@.len() > 0,
            forall|i: int| 0 <= i < carved@.len() ==> carvable(bounds, self.params.carve_radius, #[trigger] carved@[i]),
    {
        let mut carved: Vec<(u32, u32)> = Vec::new();
        let mut walkers: Vec<Walker> = Vec::new();
        let mut total_iterations: u32 = 0;
        let mut n: u32 = 0;
        while n < self.params.num_walkers
            invariant
                walk_bounds_ok(self.params, bounds),
                n <= self.params.num_walkers,
                walkers@.len() == n,
                forall|j: int| 0 <= j < walkers@.len() ==> walker_ok(#[trigger] walkers@[j], bounds),
            decreases self.params.num_walkers - n,
        {
            let x = bounds.x + gen_range_u32(rng, 1, bounds.width - 1);
            let y = bounds.y + gen_range_u32(rng, 1, bounds.height - 1);
            let direction = random_direction(rng);
            walkers.push(Walker { x, y, direction, steps_remaining: self.params.steps_per_walker });
            n = n + 1;
        }
        while walkers.len() > 0 && total_iterations < MAX_ITERATIONS
            invariant
                walk_bounds_ok(self.params, bounds),
                total_iterations <= MAX_ITERATIONS,
                forall|j: int| 0 <= j < walkers@.len() ==> walker_ok(#[trigger] walkers@[j], bounds),
                forall|i: int| 0 <= i < carved@.len() ==> carvable(bounds, self.params.carve_radius, #[trigger] carved@[i]),
                self.params.num_walkers == 0 ==> carved@.len() == 0 && walkers@.len() == 0,
                self.params.num_walkers > 0 ==> carved@.len() > 0 || total_iterations == 0,
                self.params.num_walkers > 0 ==> walkers@.len() > 0 || total_iterations > 0,
            decreases MAX_ITERATIONS - total_iterations,
        {
            total_iterations = total_iterations + 1;
            let mut new_walkers: Vec<Walker> = Vec::new();
            let walker_count = walkers.len();
            let mut i: usize = 0;
            let ghost len0 = carved@.len();
            while i < walker_count
                invariant
                    walk_bounds_ok(self.params, bounds),
                    walker_count == walkers@.len(),
                    walker_count > 0,
                    i <= walker_count,
                    1 <= total_iterations <= MAX_ITERATIONS,
                    forall|j: int| 0 <= j < i ==> {
                        let w = #[trigger] walkers@[j];
                        inner(bounds, w.x as int, w.y as int) && compass(w.direction)
                    },
                    forall|j: int| i <= j < walkers@.len() ==> walker_ok(#[trigger] walkers@[j], bounds),
                    forall|j: int| 0 <= j < new_walkers@.len() ==> walker_ok(#[trigger] new_walkers@[j], bounds),
                    forall|c: int| 0 <= c < carved@.len() ==> carvable(bounds, self.params.carve_radius, #[trigger] carved@[c]),
                    carved@.len() >= len0 + i,
                    self.params.num_walkers > 0,
                    new_walkers@.len() <= i,
                decreases walker_count - i,
            {
                let mut walker = walkers[i];
                self.carve_area(walker.x, walker.y, &mut carved, &bounds);
                let nx0 = walker.x as i32 + walker.direction.0;
                let ny0 = walker.y as i32 + walker.direction.1;
                let nx: u32 = if nx0 > 0 { nx0 as u32 } else { 0 };
                let ny: u32 = if ny0 > 0 { ny0 as u32 } else { 0 };
                let hi_x = bounds.x + bounds.width - 2;
                let hi_y = bounds.y + bounds.height - 2;
                let cx = if nx < hi_x { nx } else { hi_x };
                let cy = if ny < hi_y { ny } else { hi_y };
                walker.x = if cx > bounds.x + 1 { cx } else { bounds.x + 1 };
                walker.y = if cy > bounds.y + 1 { cy } else { bounds.y + 1 };
                let turn = gen_range_u32(rng, 0, CHANCE_SCALE);
                if turn < self.params.change_direction_chance {
                    walker.direction = random_direction(rng);
                }
                let spawn = gen_range_u32(rng, 0, CHANCE_SCALE);
                if spawn < self.params.spawn_new_walker_chance
                    && walker_count < self.params.max_walkers as usize
                    && new_walkers.len() < self.params.max_walkers as usize - walker_count
                    && total_iterations < MAX_ITERATIONS / 2 {
                    let direction = random_direction(rng);
                    new_walkers.push(Walker { x: walker.x, y: walker.y, direction, steps_remaining: self.params.steps_per_walker });
                }
                walker.steps_remaining = walker.steps_remaining - 1;
                walkers.set(i, walker);
                i = i + 1;
            }
            let mut kept: Vec<Walker> = Vec::new();
            let mut j: usize = 0;
            while j < walkers.len()
                invariant
                    walk_bounds_ok(self.params, bounds),
                    j <= walkers@.len(),
                    forall|k: int| 0 <= k < walkers@.len() ==> {
                        let w = #[trigger] walkers@[k];
                        inner(bounds, w.x as int, w.y as int) && compass(w.direction)
                    },
                    forall|k: int| 0 <= k < kept@.len() ==> walker_ok(#[trigger] kept@[k], bounds),
                decreases walkers@.len() - j,
            {
                let w = walkers[j];
                if w.steps_remaining > 0 {
                    kept.push(w);
                }
                j = j + 1;
            }
            let mut k: usize = 0;
            while k < new_walkers.len()
                invariant
                    walk_bounds_ok(self.params, bounds),
                    k <= new_walkers@.len(),
                    forall|m: int| 0 <= m < new_walkers@.len() ==> walker_ok(#[trigger] new_walkers@[m], bounds),
                    forall|m: int| 0 <= m < kept@.len() ==> walker_ok(#[trigger] kept@[m], bounds),
                decreases new_walkers@.len() - k,
            {
                kept.push(new_walkers[k]);
                k = k + 1;
            }
            walkers = kept;
        }
        carved
    }

    /// Carve the cell a walker stands on, or with a carve radius the square
    /// around it, keeping to the bounds.
    fn carve_area(&self, x: u32, y: u32, carved: &mut Vec<(u32, u32)>, bounds: &Rectangle)
        requires
            walk_bounds_ok(self.params, *bounds),
            inner(*bounds, x as int, y as int),
            forall|i: int| 0 <= i < old(carved)@.len() ==> carvable(*bounds, self.params.carve_radius, #[trigger] old(carved)@[i]),
        ensures
            final(carved)@.len() > old(carved)@.len(),
            forall|i: int| 0 <= i < final(carved)@.len() ==> carvable(*bounds, self.params.carve_radius, #[trigger] final(carved)@[i]),
    {
        let radius = self.params.carve_radius;
        if radius == 0 {
            carved.push((x, y));
        } else {
            let span = radius * 2;
            let left = if x >= radius { x - radius } else { 0 };
            let top = if y >= radius { y - radius } else { 0 };
            let ghost len0 = carved@.len();
            let mut dy: u32 = 0;
            while dy <= span
                invariant
                    walk_bounds_ok(self.params, *bounds),
                    inner(*bounds, x as int, y as int),
                    radius == self.params.carve_radius,
                    radius > 0,
                    span == radius * 2,
                    left == (if x >= radius { x - radius } else { 0 }),
                    top == (if y >= radius { y - radius } else { 0 }),
                    dy <= span + 1,
                    forall|i: int| 0 <= i < carved@.len() ==> carvable(*bounds, radius, #[trigger] carved@[i]),
                    dy > y - top ==> carved@.len() > len0,
                    carved@.len() >= len0,
                decreases span + 1 - dy,
            {
                let mut dx: u32 = 0;
                let ghost row_start = carved@.len();
                while dx <= span
                    invariant
                        walk_bounds_ok(self.params, *bounds),
                        inner(*bounds, x as int, y as int),
                        radius == self.params.carve_radius,
                        radius > 0,
                        span == radius * 2,
                        left == (if x >= radius { x - radius } else { 0 }),
                        top == (if y >= radius { y - radius } else { 0 }),
                        dy <= span,
                        dx <= span + 1,
                        forall|i: int| 0 <= i < carved@.len() ==> carvable(*bounds, radius, #[trigger] carved@[i]),
                        carved@.len() >= row_start,
                        dy == y - top && dx > x - left ==> carved@.len() > row_start,
                    decreases span + 1 - dx,
                {
                    let nx: u32 = if left <= u32::MAX - dx { left + dx } else { u32::MAX };
                    let ny: u32 = if top <= u32::MAX - dy { top + dy } else { u32::MAX };
                    if nx >= bounds.x && nx < bounds.x + bounds.width && ny >= bounds.y && ny < bounds.y + bounds.height {
                        carved.push((nx, ny));
                    }
                    dx = dx + 1;
                }
                dy = dy + 1;
            }
        }
    }
}

/// One of the four compass steps, drawn at random.
fn random_direction(rng: &mut ChaCha8Rng) -> (d: (i32, i32))
    ensures
        compass(d),
{
    let choice = gen_range_u32(rng, 0, 4);
    if choice == 0 {
        (0, -1)
    } else if choice == 1 {
        (1, 0)
    } else if choice == 2 {
        (0, 1)
    } else {
        (-1, 0)
    }
}

} // verus!
