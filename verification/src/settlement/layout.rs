//! Settlement size, population, building positions and the packing of
//! buildings into rows.

use vstd::prelude::*;
use rand_chacha::ChaCha8Rng;
use crate::rng::gen_range_incl_i32;

verus! {

/// How large and complex a settlement is.
#[derive(Debug, Clone, Copy, PartialEq, Eq, Structural)]
pub enum SettlementTier {
    Village,
    Town,
    City,
}

/// A building placed in a settlement.
#[derive(Debug, Clone)]
pub struct Building {
    pub prefab_name: String,
    pub x: i32,
    pub y: i32,
    pub faction: Option<String>,
    /// Clockwise rotation in degrees: 0, 90, 180 or 270.
    pub rotation: u16,
}

/// Width and height of a settlement of each tier.
pub open spec fn dimensions_of(tier: SettlementTier) -> (usize, usize) {
    match tier {
        SettlementTier::Village => (80, 60),
        SettlementTier::Town => (120, 90),
        SettlementTier::City => (180, 120),
    }
}

/// The settlement's width and height.
pub fn calculate_dimensions(tier: SettlementTier) -> (d: (usize, usize))
    ensures
        d == dimensions_of(tier),
{
    match tier {
        SettlementTier::Village => (80, 60),
        SettlementTier::Town => (120, 90),
        SettlementTier::City => (180, 120),
    }
}

/// The expected population.
pub fn calculate_population(tier: SettlementTier) -> (p: usize)
    ensures
        p == match tier {
            SettlementTier::Village => 20usize,
            SettlementTier::Town => 50usize,
            SettlementTier::City => 100usize,
        },
{
    match tier {
        SettlementTier::Village => 20,
        SettlementTier::Town => 50,
        SettlementTier::City => 100,
    }
}

/// Grid spacing across, down, and the margin kept from the edges.
pub open spec fn grid_of(tier: SettlementTier) -> (usize, usize, usize) {
    match tier {
        SettlementTier::Village => (18, 14, 8),
        SettlementTier::Town => (16, 12, 6),
        SettlementTier::City => (14, 10, 5),
    }
}

/// How many of `start`, `start + step`, ... lie below `limit`.
pub open spec fn steps_below(start: int, limit: int, step: int) -> nat
    decreases (if start < limit { limit - start } else { 0 }),
{
    if start < limit && step > 0 {
        1 + steps_below(start + step, limit, step)
    } else {
        0
    }
}

/// Columns of the tier's grid across a settlement `width` wide.
pub open spec fn grid_cols(tier: SettlementTier, width: int) -> nat {
    steps_below(grid_of(tier).2 as int, width - grid_of(tier).2, grid_of(tier).0 as int)
}

/// Rows of the tier's grid down a settlement `height` high.
pub open spec fn grid_rows(tier: SettlementTier, height: int) -> nat {
    steps_below(grid_of(tier).2 as int, height - grid_of(tier).2, grid_of(tier).1 as int)
}

/// The position is grid point `(c, r)` moved by at most a quarter of the
/// spacing each way, and kept at or beyond the margin.
pub open spec fn jittered(tier: SettlementTier, p: (i32, i32), c: int, r: int) -> bool {
    let (sx, sy, m) = grid_of(tier);
    let gx = m + c * sx;
    let gy = m + r * sy;
    &&& p.0 >= m && gx - sx / 4 <= p.0 <= gx + sx / 4
    &&& p.1 >= m && gy - sy / 4 <= p.1 <= gy + sy / 4
}

/// The position is some point of a grid of `cols` by `rows`, jittered.
pub open spec fn near_grid(tier: SettlementTier, p: (i32, i32), cols: int, rows: int) -> bool {
    exists|c: int, r: int| 0 <= c < cols && 0 <= r < rows && #[trigger] jittered(tier, p, c, r)
}

/// Candidate building positions: a grid with the tier's spacing inside the
/// margin, row by row, each point moved by a drawn jitter of at most a
/// quarter of the spacing and kept at or beyond the margin.
pub fn generate_layout(tier: SettlementTier, width: usize, height: usize, rng: &mut ChaCha8Rng) -> (positions: Vec<(i32, i32)>)
    requires
        width <= i32::MAX,
        height <= i32::MAX,
    ensures
        forall|k: int| 0 <= k < positions@.len() ==> {
            let (sx, sy, m) = grid_of(tier);
            &&& (#[trigger] positions@[k]).0 >= m
            &&& positions@[k].1 >= m
            &&& positions@[k].0 < width + sx / 4
            &&& positions@[k].1 < height + sy / 4
        },
        positions@.len() == grid_rows(tier, height as int) * grid_cols(tier, width as int),
        forall|k: int| 0 <= k < positions@.len() ==> near_grid(
            tier,
            #[trigger] positions@[k],
            grid_cols(tier, width as int) as int,
            grid_rows(tier, height as int) as int,
        ),
{
    let (spacing_x, spacing_y, margin): (usize, usize, usize) = match tier {
        SettlementTier::Village => (18, 14, 8),
        SettlementTier::Town => (16, 12, 6),
        SettlementTier::City => (14, 10, 5),
    };
    let jx = (spacing_x / 4) as i32;
    let jy = (spacing_y / 4) as i32;
    let mut positions: Vec<(i32, i32)> = Vec::new();
    let ghost cols = grid_cols(tier, width as int);
    let ghost rows = grid_rows(tier, height as int);
    let ghost mut r: int = 0;
    let mut y = margin;
    while y + margin < height
        invariant
            cols == grid_cols(tier, width as int),
            rows == grid_rows(tier, height as int),
            0 <= r,
            y == margin + r * spacing_y,
            positions@.len() == r * cols,
            rows == r + steps_below(y as int, height - margin, spacing_y as int),
            forall|k: int| 0 <= k < positions@.len() ==> near_grid(tier, #[trigger] positions@[k], cols as int, rows as int),
            (spacing_x, spacing_y, margin) == grid_of(tier),
            jx == spacing_x / 4,
            jy == spacing_y / 4,
            width <= i32::MAX,
            height <= i32::MAX,
            y < height + spacing_y,
            forall|k: int| 0 <= k < positions@.len() ==> {
                &&& (#[trigger] positions@[k]).0 >= margin
                &&& positions@[k].1 >= margin
                &&& positions@[k].0 < width + spacing_x / 4
                &&& positions@[k].1 < height + spacing_y / 4
            },
        decreases height + spacing_y - y,
    {
        let mut x = margin;
        let ghost mut c: int = 0;
        let ghost len0 = positions@.len();
        while x + margin < width
            invariant
                cols == grid_cols(tier, width as int),
                rows == grid_rows(tier, height as int),
                0 <= r,
                0 <= c,
                y == margin + r * spacing_y,
                x == margin + c * spacing_x,
                len0 == r * cols,
                positions@.len() == len0 + c,
                cols == c + steps_below(x as int, width - margin, spacing_x as int),
                rows == r + steps_below(y as int, height - margin, spacing_y as int),
                forall|k: int| 0 <= k < positions@.len() ==> near_grid(tier, #[trigger] positions@[k], cols as int, rows as int),
                (spacing_x, spacing_y, margin) == grid_of(tier),
                jx == spacing_x / 4,
                jy == spacing_y / 4,
                width <= i32::MAX,
                height <= i32::MAX,
                y + margin < height,
                x < width + spacing_x,
                forall|k: int| 0 <= k < positions@.len() ==> {
                    &&& (#[trigger] positions@[k]).0 >= margin
                    &&& positions@[k].1 >= margin
                    &&& positions@[k].0 < width + spacing_x / 4
                    &&& positions@[k].1 < height + spacing_y / 4
                },
            decreases width + spacing_x - x,
        {
            let jitter_x = gen_range_incl_i32(rng, -jx, jx);
            let jitter_y = gen_range_incl_i32(rng, -jy, jy);
            let px0 = x as i32 + jitter_x;
            let py0 = y as i32 + jitter_y;
            let px = if px0 > margin as i32 { px0 } else { margin as i32 };
            let py = if py0 > margin as i32 { py0 } else { margin as i32 };
            let ghost before = positions@;
            positions.push((px, py));
            proof {
                assert(jittered(tier, (px, py), c, r));
                assert(c < cols && r < rows);
                assert forall|k: int| 0 <= k < positions@.len() implies near_grid(tier, #[trigger] positions@[k], cols as int, rows as int) by {
                    if k < before.len() {
                        assert(positions@[k] == before[k]);
                    } else {
                        assert(positions@[k] == (px, py));
                        assert(jittered(tier, positions@[k], c, r));
                    }
                }
                assert(x + spacing_x == margin + (c + 1) * spacing_x) by (nonlinear_arith)
                    requires
                        x == margin + c * spacing_x,
                ;
                c = c + 1;
            }
            x = x + spacing_x;
        }
        proof {
            assert(positions@.len() == (r + 1) * cols) by (nonlinear_arith)
                requires
                    positions@.len() == len0 + c,
                    len0 == r * cols,
                    c == cols,
            ;
            assert(y + spacing_y == margin + (r + 1) * spacing_y) by (nonlinear_arith)
                requires
                    y == margin + r * spacing_y,
            ;
            r = r + 1;
        }
        y = y + spacing_y;
    }
    positions
}

/// Buildings packed left to right in rows, two cells apart, inside a
/// two-cell margin, up to a number that depends on the tier.
pub struct ShelfPacker {
    pub width: usize,
    pub height: usize,
    pub max_buildings: usize,
    pub faction: Option<String>,
    pub cursor_x: usize,
    pub cursor_y: usize,
    pub row_height: usize,
    pub done: bool,
    pub buildings: Vec<Building>,
    /// Width and height of each placed building.
    pub sizes: Ghost<Seq<(int, int)>>,
}

/// The margin kept from the settlement's edges.
pub open spec fn pack_margin() -> int {
    2
}

/// The gap between packed buildings.
pub open spec fn pack_spacing() -> int {
    2
}

/// The rectangles of two placed buildings do not overlap.
pub open spec fn apart(x1: int, y1: int, s1: (int, int), x2: int, y2: int, s2: (int, int)) -> bool {
    x1 + s1.0 <= x2 || x2 + s2.0 <= x1 || y1 + s1.1 <= y2 || y2 + s2.1 <= y1
}

/// How many buildings a settlement of the tier holds at most.
pub open spec fn max_buildings_of(tier: SettlementTier) -> usize {
    match tier {
        SettlementTier::Village => 6,
        SettlementTier::Town => 12,
        SettlementTier::City => 20,
    }
}

impl ShelfPacker {
    /// Placed buildings lie at the cursor's rows, never overlap, and the
    /// cursor is past every one of them.
    pub open spec fn wf(&self) -> bool {
        &&& self.sizes@.len() == self.buildings@.len()
        &&& self.cursor_x >= pack_margin()
        &&& self.cursor_y >= pack_margin()
        &&& self.cursor_x <= i32::MAX
        &&& self.cursor_y <= i32::MAX
        &&& forall|i: int| 0 <= i < self.buildings@.len() ==> {
            let b = #[trigger] self.buildings@[i];
            let s = self.sizes@[i];
            &&& s.0 >= 0 && s.1 >= 0
            &&& b.x >= pack_margin() && b.y >= pack_margin()
            &&& b.y <= self.cursor_y
            &&& (b.y < self.cursor_y ==> b.y + s.1 + pack_spacing() <= self.cursor_y)
            &&& (b.y == self.cursor_y ==> b.x + s.0 + pack_spacing() <= self.cursor_x && s.1 <= self.row_height)
        }
        &&& forall|i: int, j: int| 0 <= i < j < self.buildings@.len() ==> apart(
            (#[trigger] self.buildings@[i]).x as int,
            self.buildings@[i].y as int,
            self.sizes@[i],
            (#[trigger] self.buildings@[j]).x as int,
            self.buildings@[j].y as int,
            self.sizes@[j],
        )
    }

    /// An empty packer for a settlement of the given size and tier.
    pub fn new(tier: SettlementTier, width: usize, height: usize, faction: Option<String>) -> (p: Self)
        ensures
            p.wf(),
            p.width == width,
            p.height == height,
            p.max_buildings == max_buildings_of(tier),
            p.faction == faction,
            p.buildings@.len() == 0,
            !p.done,
    {
        let max_buildings: usize = match tier {
            SettlementTier::Village => 6,
            SettlementTier::Town => 12,
            SettlementTier::City => 20,
        };
        ShelfPacker {
            width,
            height,
            max_buildings,
            faction,
            cursor_x: 2,
            cursor_y: 2,
            row_height: 0,
            done: false,
            buildings: Vec::new(),
            sizes: Ghost(Seq::empty()),
        }
    }

    /// Whether another building should be drawn: packing has not stopped and
    /// the cursor's row starts inside the margin.
    pub fn wants_more(&self) -> (b: bool)
        requires
            self.wf(),
        ensures
            b == (!self.done && self.cursor_y + pack_margin() < self.height),
    {
        !self.done && self.cursor_y + 2 < self.height
    }

    /// Pack a drawn structure of the given size: wrap to the next row when
    /// it does not fit across, stop when the wrapped row cannot hold it, and
    /// stop once the tier's number of buildings is placed.
    pub fn place(&mut self, prefab_name: String, w: usize, h: usize)
        requires
            old(self).wf(),
            old(self).cursor_x + w + 4 <= i32::MAX,
            old(self).cursor_y + old(self).row_height + h + 4 <= i32::MAX,
        ensures
            final(self).wf(),
            final(self).width == old(self).width,
            final(self).height == old(self).height,
            final(self).max_buildings == old(self).max_buildings,
            final(self).faction == old(self).faction,
            final(self).buildings@.len() <= old(self).buildings@.len() + 1,
            final(self).buildings@.subrange(0, old(self).buildings@.len() as int) == old(self).buildings@,
            old(self).done ==> final(self).done,
            final(self).buildings@.len() == old(self).buildings@.len() + 1 ==> {
                let b = final(self).buildings@.last();
                &&& b.prefab_name == prefab_name
                &&& b.faction == old(self).faction
                &&& b.rotation == 0
            },
            ({
                let wrap = old(self).cursor_x + w + 2 > old(self).width;
                let cx = if wrap { 2 } else { old(self).cursor_x as int };
                let cy = if wrap { old(self).cursor_y + old(self).row_height + 2 } else { old(self).cursor_y as int };
                let rh = if wrap { 0 } else { old(self).row_height as int };
                if wrap && cy + h + 2 > old(self).height {
                    &&& final(self).done
                    &&& final(self).buildings@ == old(self).buildings@
                    &&& final(self).cursor_x == cx
                    &&& final(self).cursor_y == cy
                    &&& final(self).row_height == 0
                } else {
                    &&& final(self).buildings@.len() == old(self).buildings@.len() + 1
                    &&& final(self).buildings@.last().x == cx
                    &&& final(self).buildings@.last().y == cy
                    &&& final(self).cursor_x == cx + w + 2
                    &&& final(self).cursor_y == cy
                    &&& final(self).row_height == (if h > rh { h as int } else { rh })
                    &&& final(self).done == (old(self).done || final(self).buildings@.len() >= old(self).max_buildings)
                }
            }),
    {
        if self.cursor_x + w + 2 > self.width {
            self.cursor_x = 2;
            self.cursor_y = self.cursor_y + self.row_height + 2;
            self.row_height = 0;
            if self.cursor_y + h + 2 > self.height {
                self.done = true;
                return;
            }
        }
        let ghost old_sizes = self.sizes@;
        let ghost old_b = self.buildings@;
        let faction = match &self.faction {
            Some(f) => Some(f.clone()),
            None => None,
        };
        let b = Building { prefab_name, x: self.cursor_x as i32, y: self.cursor_y as i32, faction, rotation: 0 };
        self.buildings.push(b);
        self.sizes = Ghost(old_sizes.push((w as int, h as int)));
        self.cursor_x = self.cursor_x + w + 2;
        if h > self.row_height {
            self.row_height = h;
        }
        proof {
            let n = old_b.len() as int;
            assert forall|i: int, j: int| 0 <= i < j < self.buildings@.len() implies apart(
                (#[trigger] self.buildings@[i]).x as int,
                self.buildings@[i].y as int,
                self.sizes@[i],
                (#[trigger] self.buildings@[j]).x as int,
                self.buildings@[j].y as int,
                self.sizes@[j],
            ) by {
                assert(self.buildings@[i] == old_b[i]);
                if j < n {
                    assert(self.buildings@[j] == old_b[j]);
                } else {
                    assert(old_b[i].y <= self.cursor_y);
                }
            }
        }
        if self.buildings.len() >= self.max_buildings {
            self.done = true;
        }
    }
}

} // verus!
