//! Wave function collapse over a grid of blocks: each block collapses to one
//! of a set of solid patterns, weighted, and the patterns are laid out as
//! tiles.

use vstd::prelude::*;
use rand_chacha::ChaCha8Rng;
use crate::structures::Rectangle;
use crate::rng::{gen_range_u32, gen_range_usize};

verus! {

/// How the next block to collapse is picked.
#[derive(Debug, Clone, Copy, PartialEq, Eq)]
pub enum EntropyHeuristic {
    MinimumEntropy,
    WeightedRandom,
    CornerFirst,
}

/// Block size, overlap, a cap on collapse steps, the heuristic, and the
/// tile types with their weights (as millionths), in order.
#[derive(Debug, Clone)]
pub struct WaveFunctionCollapseParams {
    pub tile_size: u32,
    pub overlap: u32,
    pub max_iterations: u32,
    pub entropy_heuristic: EntropyHeuristic,
    pub pattern_weights: Vec<(String, u32)>,
}

impl Default for WaveFunctionCollapseParams {
    fn default() -> (p: Self)
        ensures
            p.tile_size == 3,
            p.overlap == 1,
            p.max_iterations == 1000,
            p.entropy_heuristic == EntropyHeuristic::MinimumEntropy,
            p.pattern_weights@.len() == 3,
            p.pattern_weights@[0].0@ == "floor"@ && p.pattern_weights@[0].1 == 600_000,
            p.pattern_weights@[1].0@ == "wall"@ && p.pattern_weights@[1].1 == 300_000,
            p.pattern_weights@[2].0@ == "door"@ && p.pattern_weights@[2].1 == 100_000,
    {
        let mut weights: Vec<(String, u32)> = Vec::new();
        weights.push((String::from_str("floor"), 600_000));
        weights.push((String::from_str("wall"), 300_000));
        weights.push((String::from_str("door"), 100_000));
        WaveFunctionCollapseParams {
            tile_size: 3,
            overlap: 1,
            max_iterations: 1000,
            entropy_heuristic: EntropyHeuristic::MinimumEntropy,
            pattern_weights: weights,
        }
    }
}

/// A block pattern: rows of tile types, and its weight.
#[derive(Debug)]
pub struct Pattern {
    pub tiles: Vec<Vec<String>>,
    pub weight: u32,
}

/// A block of the grid: the patterns it may still take, and whether it has
/// collapsed.
#[derive(Debug)]
pub struct Cell {
    pub possible_patterns: Vec<usize>,
    pub collapsed: bool,
}

/// The generator with its parameters and patterns.
pub struct WaveFunctionCollapseGenerator {
    pub params: WaveFunctionCollapseParams,
    pub patterns: Vec<Pattern>,
}

/// The pattern is `ts` rows of `ts` tiles, all of type `t`.
pub open spec fn solid(p: Pattern, t: Seq<char>, ts: int) -> bool {
    &&& p.tiles@.len() == ts
    &&& forall|r: int| 0 <= r < ts ==> (#[trigger] p.tiles@[r])@.len() == ts
    &&& forall|r: int, c: int| 0 <= r < ts && 0 <= c < ts ==> (#[trigger] p.tiles@[r]@[c])@ == t
}

/// Whether two patterns may sit side by side: any two may.
pub open spec fn compatible(a: int, b: int) -> bool {
    true
}

/// The cell's patterns as integers.
pub open spec fn options(c: Cell) -> Seq<int> {
    c.possible_patterns@.map_values(|i: usize| i as int)
}

/// The cell comes before `(x, y)` in row order.
pub open spec fn before(x2: int, y2: int, x: int, y: int) -> bool {
    y2 < y || (y2 == y && x2 < x)
}

/// The block the minimum-entropy rule picks: the first in row order among
/// the uncollapsed blocks with the fewest (but some) patterns left.
pub open spec fn min_entropy_pick(g: Seq<Seq<Cell>>, x: int, y: int) -> bool {
    &&& 0 <= y < g.len() && 0 <= x < g[y].len()
    &&& !g[y][x].collapsed && g[y][x].possible_patterns@.len() > 0
    &&& forall|y2: int, x2: int| 0 <= y2 < g.len() && 0 <= x2 < g[y2].len() && !(#[trigger] g[y2][x2]).collapsed
        && g[y2][x2].possible_patterns@.len() > 0 ==> {
        &&& g[y2][x2].possible_patterns@.len() >= g[y][x].possible_patterns@.len()
        &&& (before(x2, y2, x, y) ==> g[y2][x2].possible_patterns@.len() > g[y][x].possible_patterns@.len())
    }
}

/// No block is left to pick: each has collapsed or has no patterns left.
pub open spec fn nothing_to_pick(g: Seq<Seq<Cell>>) -> bool {
    forall|y2: int, x2: int| 0 <= y2 < g.len() && 0 <= x2 < g[y2].len() ==> (#[trigger] g[y2][x2]).collapsed
        || g[y2][x2].possible_patterns@.len() == 0
}

/// The tiles a collapsed block lays out, row by row, `(type, position)`,
/// keeping to the bounds: block `(gx, gy)` of pattern type `t` covers
/// `ts` x `ts` tiles from `(bx + gx ts, by + gy ts)`.
pub open spec fn block_row(t: Seq<char>, ox: int, wy: int, b: Rectangle, c: int) -> Seq<(Seq<char>, (u32, u32))>
    decreases c,
{
    if c <= 0 {
        Seq::empty()
    } else {
        let rest = block_row(t, ox, wy, b, c - 1);
        let wx = ox + c - 1;
        if wx < b.x + b.width && wy < b.y + b.height {
            rest.push((t, (wx as u32, wy as u32)))
        } else {
            rest
        }
    }
}

/// The first `r` rows of a block.
pub open spec fn block_rows(t: Seq<char>, ox: int, oy: int, ts: int, b: Rectangle, r: int) -> Seq<(Seq<char>, (u32, u32))>
    decreases r,
{
    if r <= 0 {
        Seq::empty()
    } else {
        block_rows(t, ox, oy, ts, b, r - 1) + block_row(t, ox, oy + r - 1, b, ts)
    }
}

/// What block `(gx, gy)` lays out: its pattern's tiles when it has
/// collapsed to one, else nothing.
pub open spec fn block_tiles(
    g: Seq<Seq<Cell>>,
    types: Seq<Seq<char>>,
    gx: int,
    gy: int,
    ts: int,
    b: Rectangle,
) -> Seq<(Seq<char>, (u32, u32))> {
    let c = g[gy][gx];
    if c.collapsed && c.possible_patterns@.len() > 0 {
        block_rows(types[c.possible_patterns@[0] as int], b.x + gx * ts, b.y + gy * ts, ts, b, ts)
    } else {
        Seq::empty()
    }
}

/// The tiles of the first `k` blocks of row `gy`.
pub open spec fn grid_row_tiles(
    g: Seq<Seq<Cell>>,
    types: Seq<Seq<char>>,
    gy: int,
    k: int,
    ts: int,
    b: Rectangle,
) -> Seq<(Seq<char>, (u32, u32))>
    decreases k,
{
    if k <= 0 {
        Seq::empty()
    } else {
        grid_row_tiles(g, types, gy, k - 1, ts, b) + block_tiles(g, types, k - 1, gy, ts, b)
    }
}

/// The tiles of the first `rows` rows of blocks.
pub open spec fn grid_tiles(g: Seq<Seq<Cell>>, types: Seq<Seq<char>>, rows: int, ts: int, b: Rectangle) -> Seq<(Seq<char>, (u32, u32))>
    decreases rows,
{
    if rows <= 0 {
        Seq::empty()
    } else {
        grid_tiles(g, types, rows - 1, ts, b) + grid_row_tiles(g, types, rows - 1, g[rows - 1].len() as int, ts, b)
    }
}

/// The index of the first group of type `t`.
pub open spec fn group_of(groups: Seq<(Seq<char>, Seq<(u32, u32)>)>, t: Seq<char>) -> Option<int>
    decreases groups.len(),
{
    if groups.len() == 0 {
        None
    } else {
        match group_of(groups.drop_last(), t) {
            Some(i) => Some(i),
            None => if groups.last().0 == t { Some(groups.len() - 1) } else { None },
        }
    }
}

/// Tiles gathered by type, types in order of first appearance, positions in
/// order.
pub open spec fn grouped(tiles: Seq<(Seq<char>, (u32, u32))>) -> Seq<(Seq<char>, Seq<(u32, u32)>)>
    decreases tiles.len(),
{
    if tiles.len() == 0 {
        Seq::empty()
    } else {
        let groups = grouped(tiles.drop_last());
        let (t, p) = tiles.last();
        match group_of(groups, t) {
            Some(i) => groups.update(i, (t, groups[i].1.push(p))),
            None => groups.push((t, seq![p])),
        }
    }
}

/// The groups as sequences.
pub open spec fn groups_view(v: Seq<(String, Vec<(u32, u32)>)>) -> Seq<(Seq<char>, Seq<(u32, u32)>)> {
    v.map_values(|e: (String, Vec<(u32, u32)>)| (e.0@, e.1@))
}

impl WaveFunctionCollapseGenerator {
    /// The patterns are the solid blocks of the configured types and
    /// weights, in order.
    pub open spec fn wf(&self) -> bool {
        &&& self.patterns@.len() == self.params.pattern_weights@.len()
        &&& forall|i: int| 0 <= i < self.patterns@.len() ==> {
            &&& solid(#[trigger] self.patterns@[i], self.params.pattern_weights@[i].0@, self.params.tile_size as int)
            &&& self.patterns@[i].weight == self.params.pattern_weights@[i].1
        }
    }

    /// The pattern types, in order.
    pub open spec fn types(&self) -> Seq<Seq<char>> {
        self.params.pattern_weights@.map_values(|e: (String, u32)| e.0@)
    }

    pub fn new(params: WaveFunctionCollapseParams) -> (g: Self)
        ensures
            g.params == params,
            g.wf(),
    {
        let patterns = Self::generate_basic_patterns(&params);
        Self { params, patterns }
    }

    /// One solid block per configured type, with its weight.
    pub fn generate_basic_patterns(params: &WaveFunctionCollapseParams) -> (ps: Vec<Pattern>)
        ensures
            ps@.len() == params.pattern_weights@.len(),
            forall|i: int| 0 <= i < ps@.len() ==> {
                &&& solid(#[trigger] ps@[i], params.pattern_weights@[i].0@, params.tile_size as int)
                &&& ps@[i].weight == params.pattern_weights@[i].1
            },
    {
        let size = params.tile_size as usize;
        let mut ps: Vec<Pattern> = Vec::new();
        let mut i: usize = 0;
        while i < params.pattern_weights.len()
            invariant
                size == params.tile_size,
                i <= params.pattern_weights@.len(),
                ps@.len() == i,
                forall|j: int| 0 <= j < i ==> {
                    &&& solid(#[trigger] ps@[j], params.pattern_weights@[j].0@, size as int)
                    &&& ps@[j].weight == params.pattern_weights@[j].1
                },
            decreases params.pattern_weights@.len() - i,
        {
            let t = &params.pattern_weights[i].0;
            let mut tiles: Vec<Vec<String>> = Vec::new();
            let mut r: usize = 0;
            while r < size
                invariant
                    r <= size,
                    tiles@.len() == r,
                    forall|a: int| 0 <= a < r ==> (#[trigger] tiles@[a])@.len() == size,
                    forall|a: int, c: int| 0 <= a < r && 0 <= c < size ==> (#[trigger] tiles@[a]@[c])@ == t@,
                decreases size - r,
            {
                let mut row: Vec<String> = Vec::new();
                let mut c: usize = 0;
                while c < size
                    invariant
                        c <= size,
                        row@.len() == c,
                        forall|k: int| 0 <= k < c ==> (#[trigger] row@[k])@ == t@,
                    decreases size - c,
                {
                    row.push(t.clone());
                    c = c + 1;
                }
                tiles.push(row);
                r = r + 1;
            }
            ps.push(Pattern { tiles, weight: params.pattern_weights[i].1 });
            i = i + 1;
        }
        ps
    }

    /// Whether every block has collapsed.
    pub fn is_fully_collapsed(&self, grid: &Vec<Vec<Cell>>) -> (b: bool)
        ensures
            b == forall|y: int, x: int| 0 <= y < grid@.len() && 0 <= x < grid@[y]@.len() ==> (#[trigger] grid@[y]@[x]).collapsed,
    {
        let mut y: usize = 0;
        while y < grid.len()
            invariant
                y <= grid@.len(),
                forall|y2: int, x: int| 0 <= y2 < y && 0 <= x < grid@[y2]@.len() ==> (#[trigger] grid@[y2]@[x]).collapsed,
            decreases grid@.len() - y,
        {
            let mut x: usize = 0;
            while x < grid[y].len()
                invariant
                    y < grid@.len(),
                    x <= grid@[y as int]@.len(),
                    forall|y2: int, x2: int| 0 <= y2 < y && 0 <= x2 < grid@[y2]@.len() ==> (#[trigger] grid@[y2]@[x2]).collapsed,
                    forall|x2: int| 0 <= x2 < x ==> (#[trigger] grid@[y as int]@[x2]).collapsed,
                decreases grid@[y as int]@.len() - x,
            {
                if !grid[y][x].collapsed {
                    return false;
                }
                x = x + 1;
            }
            y = y + 1;
        }
        true
    }
}

/// Two grids hold blocks of the same shape, state and patterns.
pub open spec fn same_cells(a: Seq<Vec<Cell>>, b: Seq<Vec<Cell>>) -> bool {
    &&& a.len() == b.len()
    &&& forall|r: int| 0 <= r < a.len() ==> (#[trigger] a[r])@.len() == b[r]@.len()
    &&& forall|r: int, c: int| 0 <= r < a.len() && 0 <= c < a[r]@.len() ==> {
        &&& (#[trigger] a[r]@[c]).collapsed == b[r]@[c].collapsed
        &&& a[r]@[c].possible_patterns@ == b[r]@[c].possible_patterns@
    }
}

/// The grid's rows as sequences.
pub open spec fn blocks(grid: Seq<Vec<Cell>>) -> Seq<Seq<Cell>> {
    grid.map_values(|r: Vec<Cell>| r@)
}

/// Every pattern index below `n`.
pub open spec fn all_of(n: int) -> Seq<int> {
    Seq::new(n as nat, |i: int| i)
}

/// A block still open to every pattern.
pub open spec fn fresh(c: Cell, n: int) -> bool {
    !c.collapsed && options(c) == all_of(n)
}

/// A block collapsed to one pattern.
pub open spec fn settled(c: Cell, n: int) -> bool {
    c.collapsed && c.possible_patterns@.len() == 1 && c.possible_patterns@[0] < n
}

/// A `gw` x `gh` grid whose blocks before `(kx, ky)` in row order have
/// collapsed and whose others are fresh.
pub open spec fn layout_state(g: Seq<Seq<Cell>>, gw: int, gh: int, n: int, kx: int, ky: int) -> bool {
    &&& g.len() == gh
    &&& forall|y: int| 0 <= y < gh ==> (#[trigger] g[y]).len() == gw
    &&& forall|y: int, x: int| 0 <= y < gh && 0 <= x < gw ==> if before(x, y, kx, ky) {
        settled(#[trigger] g[y][x], n)
    } else {
        fresh(g[y][x], n)
    }
}

/// The next block in row order after `(kx, ky)` in a `gw`-wide grid.
pub open spec fn next_block(kx: int, ky: int, gw: int) -> (int, int) {
    if kx + 1 == gw { (0, ky + 1) } else { (kx + 1, ky) }
}

/// Blocks collapsed, as counted by the collapse loop.
pub open spec fn collapse_steps(n: int, gw: int, gh: int, max: int) -> int {
    if n == 0 {
        0
    } else if max < gw * gh {
        max
    } else {
        gw * gh
    }
}

/// Two blocks picked by the minimum-entropy rule are the same block.
proof fn lemma_pick_unique(g: Seq<Seq<Cell>>, x1: int, y1: int, x2: int, y2: int)
    requires
        min_entropy_pick(g, x1, y1),
        min_entropy_pick(g, x2, y2),
    ensures
        x1 == x2 && y1 == y2,
{
    assert(!g[y2][x2].collapsed);
    assert(!g[y1][x1].collapsed);
}

/// In a layout state with patterns, the rule picks the next fresh block.
proof fn lemma_pick_next(g: Seq<Seq<Cell>>, gw: int, gh: int, n: int, kx: int, ky: int)
    requires
        layout_state(g, gw, gh, n, kx, ky),
        n > 0,
        0 <= kx < gw,
        0 <= ky < gh,
    ensures
        min_entropy_pick(g, kx, ky),
{
    assert(fresh(g[ky][kx], n));
    assert(g[ky][kx].possible_patterns@.len() == options(g[ky][kx]).len());
    assert forall|y2: int, x2: int| 0 <= y2 < g.len() && 0 <= x2 < g[y2].len() && !(#[trigger] g[y2][x2]).collapsed
        && g[y2][x2].possible_patterns@.len() > 0 implies {
        &&& g[y2][x2].possible_patterns@.len() >= g[ky][kx].possible_patterns@.len()
        &&& (before(x2, y2, kx, ky) ==> g[y2][x2].possible_patterns@.len() > g[ky][kx].possible_patterns@.len())
    } by {
        assert(g[y2].len() == gw);
        if !before(x2, y2, kx, ky) {
            assert(fresh(g[y2][x2], n));
            assert(g[y2][x2].possible_patterns@.len() == options(g[y2][x2]).len());
        }
    }
}

impl WaveFunctionCollapseGenerator {
    /// The block the minimum-entropy rule picks, if any.
    pub fn find_minimum_entropy_cell(&self, grid: &Vec<Vec<Cell>>) -> (r: Option<(usize, usize)>)
        ensures
            r matches Some(p) ==> min_entropy_pick(blocks(grid@), p.0 as int, p.1 as int),
            r is None ==> nothing_to_pick(blocks(grid@)),
    {
        let ghost g = blocks(grid@);
        let mut min_entropy: usize = usize::MAX;
        let mut candidates: Vec<(usize, usize)> = Vec::new();
        let mut y: usize = 0;
        while y < grid.len()
            invariant
                g == blocks(grid@),
                y <= grid@.len(),
                candidates@.len() == 0 ==> min_entropy == usize::MAX && forall|y2: int, x2: int|
                    0 <= y2 < y && 0 <= x2 < g[y2].len() ==> (#[trigger] g[y2][x2]).collapsed || g[y2][x2].possible_patterns@.len() == 0,
                candidates@.len() > 0 ==> {
                    let (bx, by) = candidates@[0];
                    &&& 0 <= by < y && bx < g[by as int].len()
                    &&& !g[by as int][bx as int].collapsed
                    &&& g[by as int][bx as int].possible_patterns@.len() == min_entropy
                    &&& min_entropy > 0
                    &&& forall|y2: int, x2: int| 0 <= y2 < y && 0 <= x2 < g[y2].len() && !(#[trigger] g[y2][x2]).collapsed
                        && g[y2][x2].possible_patterns@.len() > 0 ==> {
                        &&& g[y2][x2].possible_patterns@.len() >= min_entropy
                        &&& (before(x2, y2, bx as int, by as int) ==> g[y2][x2].possible_patterns@.len() > min_entropy)
                    }
                },
            decreases grid@.len() - y,
        {
            let row = &grid[y];
            proof {
                assert(g[y as int] == row@);
            }
            let mut x: usize = 0;
            while x < row.len()
                invariant
                    g == blocks(grid@),
                    y < grid@.len(),
                    row@ == g[y as int],
                    x <= row@.len(),
                    candidates@.len() == 0 ==> min_entropy == usize::MAX && forall|y2: int, x2: int|
                        (0 <= y2 < y && 0 <= x2 < g[y2].len() || y2 == y && 0 <= x2 < x) ==> (#[trigger] g[y2][x2]).collapsed
                            || g[y2][x2].possible_patterns@.len() == 0,
                    candidates@.len() > 0 ==> {
                        let (bx, by) = candidates@[0];
                        &&& 0 <= by <= y && bx < g[by as int].len()
                        &&& (by == y ==> bx < x)
                        &&& !g[by as int][bx as int].collapsed
                        &&& g[by as int][bx as int].possible_patterns@.len() == min_entropy
                        &&& min_entropy > 0
                        &&& forall|y2: int, x2: int| (0 <= y2 < y && 0 <= x2 < g[y2].len() || y2 == y && 0 <= x2 < x)
                            && !(#[trigger] g[y2][x2]).collapsed && g[y2][x2].possible_patterns@.len() > 0 ==> {
                            &&& g[y2][x2].possible_patterns@.len() >= min_entropy
                            &&& (before(x2, y2, bx as int, by as int) ==> g[y2][x2].possible_patterns@.len() > min_entropy)
                        }
                    },
                decreases row@.len() - x,
            {
                let cell = &row[x];
                if !cell.collapsed {
                    let entropy = cell.possible_patterns.len();
                    if entropy < min_entropy && entropy > 0 {
                        min_entropy = entropy;
                        candidates.clear();
                        candidates.push((x, y));
                    } else if entropy == min_entropy {
                        candidates.push((x, y));
                    }
                }
                x = x + 1;
            }
            y = y + 1;
        }
        if candidates.len() == 0 {
            None
        } else {
            Some(candidates[0])
        }
    }

    /// Whether two patterns may sit side by side.
    pub fn patterns_compatible(&self, a: usize, b: usize) -> (r: bool)
        ensures
            r == compatible(a as int, b as int),
    {
        true
    }

    /// Collapse a block to one of its patterns, drawn by weight; a block
    /// with no patterns left stays as it is.
    pub fn collapse_cell(&self, grid: &mut Vec<Vec<Cell>>, x: usize, y: usize, rng: &mut ChaCha8Rng)
        requires
            y < old(grid)@.len(),
            x < old(grid)@[y as int]@.len(),
            forall|k: int| 0 <= k < old(grid)@[y as int]@[x as int].possible_patterns@.len()
                ==> (#[trigger] old(grid)@[y as int]@[x as int].possible_patterns@[k]) < self.patterns@.len(),
            old(grid)@[y as int]@[x as int].possible_patterns@.len() * 0x1_0000_0000 <= usize::MAX,
        ensures
            final(grid)@.len() == old(grid)@.len(),
            forall|r: int| 0 <= r < final(grid)@.len() && r != y ==> (#[trigger] final(grid)@[r]) == old(grid)@[r],
            final(grid)@[y as int]@ == old(grid)@[y as int]@.update(x as int, final(grid)@[y as int]@[x as int]),
            ({
                let before = old(grid)@[y as int]@[x as int];
                let after = final(grid)@[y as int]@[x as int];
                if before.possible_patterns@.len() == 0 {
                    after == before
                } else {
                    &&& after.collapsed
                    &&& after.possible_patterns@.len() == 1
                    &&& before.possible_patterns@.contains(after.possible_patterns@[0])
                }
            }),
    {
        let n = grid[y][x].possible_patterns.len();
        if n == 0 {
            return;
        }
        let mut total: usize = 0;
        let mut k: usize = 0;
        while k < n
            invariant
                n == old(grid)@[y as int]@[x as int].possible_patterns@.len(),
                *grid == *old(grid),
                y < grid@.len(),
                x < grid@[y as int]@.len(),
                n * 0x1_0000_0000 <= usize::MAX,
                forall|j: int| 0 <= j < n ==> (#[trigger] grid@[y as int]@[x as int].possible_patterns@[j]) < self.patterns@.len(),
                k <= n,
                total <= k * 0xffff_ffff,
            decreases n - k,
        {
            let p = grid[y][x].possible_patterns[k];
            proof {
                assert(k * 0xffff_ffff + 0xffff_ffff <= n * 0x1_0000_0000) by (nonlinear_arith)
                    requires
                        k < n,
                ;
            }
            total = total + self.patterns[p].weight as usize;
            k = k + 1;
        }
        let mut selected: usize = grid[y][x].possible_patterns[0];
        proof {
            assert(grid@[y as int]@[x as int].possible_patterns@.contains(selected));
        }
        if total > 0 {
            let roll = gen_range_usize(rng, 0, total);
            let mut acc: usize = 0;
            let mut k: usize = 0;
            let mut found = false;
            while k < n && !found
                invariant
                    n == grid@[y as int]@[x as int].possible_patterns@.len(),
                    y < grid@.len(),
                    x < grid@[y as int]@.len(),
                    n * 0x1_0000_0000 <= usize::MAX,
                    forall|j: int| 0 <= j < n ==> (#[trigger] grid@[y as int]@[x as int].possible_patterns@[j]) < self.patterns@.len(),
                    k <= n,
                    acc <= k * 0xffff_ffff,
                    grid@[y as int]@[x as int].possible_patterns@.contains(selected),
                decreases n - k,
            {
                let p = grid[y][x].possible_patterns[k];
                proof {
                    assert(k * 0xffff_ffff + 0xffff_ffff <= n * 0x1_0000_0000) by (nonlinear_arith)
                        requires
                            k < n,
                    ;
                }
                acc = acc + self.patterns[p].weight as usize;
                if roll < acc {
                    selected = p;
                    found = true;
                }
                k = k + 1;
            }
        }
        let mut row = grid.remove(y);
        let mut picked: Vec<usize> = Vec::new();
        picked.push(selected);
        let ghost old_row = row@;
        row.set(x, Cell { possible_patterns: picked, collapsed: true });
        grid.insert(y, row);
        proof {
            assert(grid@[y as int]@[x as int].possible_patterns@ == seq![selected]);
            assert forall|r: int| 0 <= r < grid@.len() && r != y implies (#[trigger] grid@[r]) == old(grid)@[r] by {
                if r < y {
                    assert(grid@[r] == old(grid)@[r]);
                } else {
                    assert(grid@[r] == old(grid)@[r]);
                }
            }
        }
    }

    /// Narrow the four neighbours of a collapsed block to the patterns
    /// compatible with its own; as any two patterns are compatible, nothing
    /// changes.
    pub fn propagate_constraints(&self, grid: &mut Vec<Vec<Cell>>, start_x: usize, start_y: usize)
        requires
            start_y < old(grid)@.len(),
            start_x < old(grid)@[start_y as int]@.len(),
            old(grid)@[start_y as int]@[start_x as int].possible_patterns@.len() > 0,
            old(grid)@.len() <= i32::MAX,
            forall|r: int| 0 <= r < old(grid)@.len() ==> (#[trigger] old(grid)@[r])@.len() == old(grid)@[0]@.len(),
            old(grid)@[0]@.len() <= i32::MAX,
        ensures
            same_cells(final(grid)@, old(grid)@),
    {
        let dirs: [(i32, i32); 4] = [(0, 1), (1, 0), (0, -1), (-1, 0)];
        let mut d: usize = 0;
        while d < 4
            invariant
                same_cells(grid@, old(grid)@),
                start_y < grid@.len(),
                start_x < grid@[start_y as int]@.len(),
                grid@[start_y as int]@[start_x as int].possible_patterns@.len() > 0,
                grid@.len() <= i32::MAX,
                forall|r: int| 0 <= r < grid@.len() ==> (#[trigger] grid@[r])@.len() == grid@[0]@.len(),
                grid@[0]@.len() <= i32::MAX,
                d <= 4,
                dirs@ == seq![(0i32, 1i32), (1i32, 0i32), (0i32, -1i32), (-1i32, 0i32)],
            decreases 4 - d,
        {
            let (dx, dy) = dirs[d];
            proof {
                assert(grid@[start_y as int]@.len() == grid@[0]@.len());
            }
            let nx = start_x as i32 + dx;
            let ny = start_y as i32 + dy;
            if nx >= 0 && ny >= 0 && (nx as usize) < grid[0].len() && (ny as usize) < grid.len() {
                let nx = nx as usize;
                let ny = ny as usize;
                if !grid[ny][nx].collapsed {
                    let reference = grid[start_y][start_x].possible_patterns[0];
                    let ghost before = grid@;
                    let mut kept: Vec<usize> = Vec::new();
                    let mut k: usize = 0;
                    while k < grid[ny][nx].possible_patterns.len()
                        invariant
                            grid@ == before,
                            ny < grid@.len(),
                            nx < grid@[ny as int]@.len(),
                            k <= grid@[ny as int]@[nx as int].possible_patterns@.len(),
                            kept@ == grid@[ny as int]@[nx as int].possible_patterns@.take(k as int),
                        decreases grid@[ny as int]@[nx as int].possible_patterns@.len() - k,
                    {
                        let p = grid[ny][nx].possible_patterns[k];
                        if self.patterns_compatible(p, reference) {
                            kept.push(p);
                        }
                        proof {
                            assert(grid@[ny as int]@[nx as int].possible_patterns@.take(k + 1)
                                == grid@[ny as int]@[nx as int].possible_patterns@.take(k as int).push(p));
                        }
                        k = k + 1;
                    }
                    proof {
                        assert(kept@ == grid@[ny as int]@[nx as int].possible_patterns@);
                    }
                    let mut row = grid.remove(ny);
                    let cell = Cell { possible_patterns: kept, collapsed: false };
                    row.set(nx, cell);
                    grid.insert(ny, row);
                    proof {
                        assert forall|r: int| 0 <= r < grid@.len() && r != ny implies (#[trigger] grid@[r]) == before[r] by {}
                        assert forall|c: int| 0 <= c < grid@[ny as int]@.len() && c != nx implies (#[trigger] grid@[ny as int]@[c]) == before[ny as int]@[c] by {}
                    }
                }
            }
            d = d + 1;
        }
    }
}

/// The first group of a type is the first whose type it is.
proof fn lemma_group_of_first(gs: Seq<(Seq<char>, Seq<(u32, u32)>)>, t: Seq<char>, k: int)
    requires
        0 <= k <= gs.len(),
        forall|j: int| 0 <= j < k ==> (#[trigger] gs[j]).0 != t,
        k < gs.len() ==> gs[k].0 == t,
    ensures
        k < gs.len() ==> group_of(gs, t) == Some(k),
        k == gs.len() ==> group_of(gs, t) is None,
    decreases gs.len(),
{
    if gs.len() > 0 {
        let d = gs.drop_last();
        if k < gs.len() - 1 {
            lemma_group_of_first(d, t, k);
        } else {
            assert forall|j: int| 0 <= j < d.len() implies (#[trigger] d[j]).0 != t by {
                assert(d[j] == gs[j]);
            }
            lemma_group_of_first(d, t, d.len() as int);
        }
    }
}

/// Add a tile to the group of its type, opening a group for a new type.
fn add_tile(groups: &mut Vec<(String, Vec<(u32, u32)>)>, t: &String, p: (u32, u32))
    ensures
        groups_view(final(groups)@) == (match group_of(groups_view(old(groups)@), t@) {
            Some(i) => groups_view(old(groups)@).update(i, (t@, groups_view(old(groups)@)[i].1.push(p))),
            None => groups_view(old(groups)@).push((t@, seq![p])),
        }),
{
    let ghost gv = groups_view(groups@);
    let mut k: usize = 0;
    while k < groups.len()
        invariant
            gv == groups_view(groups@),
            groups@ == old(groups)@,
            k <= groups@.len(),
            forall|j: int| 0 <= j < k ==> (#[trigger] gv[j]).0 != t@,
        decreases groups@.len() - k,
    {
        if groups[k].0 == *t {
            proof {
                lemma_group_of_first(gv, t@, k as int);
            }
            let (name, mut ps) = groups.remove(k);
            let ghost old_ps = ps@;
            ps.push(p);
            groups.insert(k, (name, ps));
            proof {
                assert(groups_view(groups@) =~= gv.update(k as int, (t@, gv[k as int].1.push(p))));
            }
            return;
        }
        k = k + 1;
    }
    proof {
        lemma_group_of_first(gv, t@, k as int);
    }
    let mut ps: Vec<(u32, u32)> = Vec::new();
    ps.push(p);
    groups.push((t.clone(), ps));
    proof {
        assert(groups_view(groups@) =~= gv.push((t@, seq![p])));
    }
}

/// The collapsed blocks' offsets stay within `u32`.
pub open spec fn offsets_fit(g: Seq<Seq<Cell>>, ts: int, b: Rectangle) -> bool {
    forall|y: int, x: int| 0 <= y < g.len() && 0 <= x < g[y].len() && (#[trigger] g[y][x]).collapsed ==> {
        &&& b.x + (x + 1) * ts <= u32::MAX
        &&& b.y + (y + 1) * ts <= u32::MAX
    }
}

impl WaveFunctionCollapseGenerator {
    /// The tiles of the collapsed blocks, gathered by type.
    pub fn grid_to_world_coords(&self, grid: &Vec<Vec<Cell>>, bounds: &Rectangle) -> (r: Vec<(String, Vec<(u32, u32)>)>)
        requires
            self.wf(),
            forall|y: int, x: int| 0 <= y < grid@.len() && 0 <= x < grid@[y]@.len() && (#[trigger] grid@[y]@[x]).collapsed
                && grid@[y]@[x].possible_patterns@.len() > 0 ==> grid@[y]@[x].possible_patterns@[0] < self.patterns@.len(),
            offsets_fit(blocks(grid@), self.params.tile_size as int, *bounds),
            bounds.fits(),
        ensures
            groups_view(r@) == grouped(grid_tiles(blocks(grid@), self.types(), grid@.len() as int, self.params.tile_size as int, *bounds)),
    {
        let ghost g = blocks(grid@);
        let ghost types = self.types();
        let ts = self.params.tile_size;
        let ghost tsi = ts as int;
        let mut groups: Vec<(String, Vec<(u32, u32)>)> = Vec::new();
        let ghost mut emitted: Seq<(Seq<char>, (u32, u32))> = Seq::empty();
        let mut gy: usize = 0;
        while gy < grid.len()
            invariant
                self.wf(),
                g == blocks(grid@),
                types == self.types(),
                ts == self.params.tile_size,
                tsi == ts,
                bounds.fits(),
                forall|y: int, x: int| 0 <= y < grid@.len() && 0 <= x < grid@[y]@.len() && (#[trigger] grid@[y]@[x]).collapsed
                    && grid@[y]@[x].possible_patterns@.len() > 0 ==> grid@[y]@[x].possible_patterns@[0] < self.patterns@.len(),
                offsets_fit(g, tsi, *bounds),
                gy <= grid@.len(),
                emitted == grid_tiles(g, types, gy as int, tsi, *bounds),
                groups_view(groups@) == grouped(emitted),
            decreases grid@.len() - gy,
        {
            let row = &grid[gy];
            proof {
                assert(g[gy as int] == row@);
            }
            let mut gx: usize = 0;
            while gx < row.len()
                invariant
                    self.wf(),
                    g == blocks(grid@),
                    types == self.types(),
                    ts == self.params.tile_size,
                    tsi == ts,
                    bounds.fits(),
                    forall|y: int, x: int| 0 <= y < grid@.len() && 0 <= x < grid@[y]@.len() && (#[trigger] grid@[y]@[x]).collapsed
                        && grid@[y]@[x].possible_patterns@.len() > 0 ==> grid@[y]@[x].possible_patterns@[0] < self.patterns@.len(),
                    offsets_fit(g, tsi, *bounds),
                    gy < grid@.len(),
                    row@ == g[gy as int],
                    gx <= row@.len(),
                    emitted == grid_tiles(g, types, gy as int, tsi, *bounds) + grid_row_tiles(g, types, gy as int, gx as int, tsi, *bounds),
                    groups_view(groups@) == grouped(emitted),
                decreases row@.len() - gx,
            {
                let ghost start = emitted;
                let cell = &row[gx];
                if cell.collapsed && cell.possible_patterns.len() > 0 {
                    let pi = cell.possible_patterns[0];
                    proof {
                        assert(grid@[gy as int]@[gx as int] == *cell);
                    }
                    let pattern = &self.patterns[pi];
                    let ghost t = types[pi as int];
                    proof {
                        assert(solid(self.patterns@[pi as int], self.params.pattern_weights@[pi as int].0@, tsi));
                        assert(t == self.params.pattern_weights@[pi as int].0@);
                        assert(bounds.x + (gx + 1) * tsi <= u32::MAX && bounds.y + (gy + 1) * tsi <= u32::MAX);
                        assert((gx + 1) * tsi == gx * tsi + tsi) by (nonlinear_arith);
                        assert((gy + 1) * tsi == gy * tsi + tsi) by (nonlinear_arith);
                        assert(0 <= gx * tsi && 0 <= gy * tsi) by (nonlinear_arith)
                            requires
                                tsi >= 0,
                        ;
                    }
                    proof {
                        if tsi > 0 {
                            assert(gx + 1 <= (gx + 1) * tsi) by (nonlinear_arith)
                                requires
                                    tsi >= 1,
                                    gx >= 0,
                            ;
                            assert(gy + 1 <= (gy + 1) * tsi) by (nonlinear_arith)
                                requires
                                    tsi >= 1,
                                    gy >= 0,
                            ;
                            assert((gx as u32) as int == gx);
                            assert((gy as u32) as int == gy);
                        } else {
                            let a = (gx as u32) as int;
                            let b = (gy as u32) as int;
                            assert(a * tsi == 0 && b * tsi == 0 && gx * tsi == 0 && gy * tsi == 0) by (nonlinear_arith)
                                requires
                                    tsi == 0,
                            ;
                        }
                    }
                    let ox: u32 = bounds.x + (gx as u32) * ts;
                    let oy: u32 = bounds.y + (gy as u32) * ts;
                    let mut py: usize = 0;
                    while py < pattern.tiles.len()
                        invariant
                            self.wf(),
                            solid(*pattern, t, tsi),
                            tsi == ts,
                            bounds.fits(),
                            pattern.tiles@.len() == tsi,
                            ox + tsi <= u32::MAX,
                            oy + tsi <= u32::MAX,
                            ox == bounds.x + gx * tsi,
                            oy == bounds.y + gy * tsi,
                            py <= tsi,
                            emitted == start + block_rows(t, ox as int, oy as int, tsi, *bounds, py as int),
                            groups_view(groups@) == grouped(emitted),
                        decreases tsi - py,
                    {
                        let prow = &pattern.tiles[py];
                        let ghost row_start = emitted;
                        let mut px: usize = 0;
                        while px < prow.len()
                            invariant
                                solid(*pattern, t, tsi),
                                prow@ == pattern.tiles@[py as int]@,
                                prow@.len() == tsi,
                                bounds.fits(),
                                ox + tsi <= u32::MAX,
                                oy + tsi <= u32::MAX,
                                py < tsi,
                                px <= tsi,
                                emitted == row_start + block_row(t, ox as int, (oy + py) as int, *bounds, px as int),
                                groups_view(groups@) == grouped(emitted),
                            decreases tsi - px,
                        {
                            let wx: u32 = ox + px as u32;
                            let wy: u32 = oy + py as u32;
                            if wx < bounds.x + bounds.width && wy < bounds.y + bounds.height {
                                let tile_type = &prow[px];
                                proof {
                                    assert(tile_type@ == t);
                                    assert(emitted.push((t, (wx, wy))).drop_last() == emitted);
                                }
                                add_tile(&mut groups, tile_type, (wx, wy));
                                proof {
                                    emitted = emitted.push((t, (wx, wy)));
                                }
                            }
                            px = px + 1;
                        }
                        proof {
                            assert(start + block_rows(t, ox as int, oy as int, tsi, *bounds, py + 1) =~= start
                                + block_rows(t, ox as int, oy as int, tsi, *bounds, py as int) + block_row(t, ox as int, (oy + py) as int, *bounds, tsi));
                        }
                        py = py + 1;
                    }
                    proof {
                        assert(block_tiles(g, types, gx as int, gy as int, tsi, *bounds) == block_rows(t, ox as int, oy as int, tsi, *bounds, tsi));
                    }
                }
                proof {
                    assert(grid_tiles(g, types, gy as int, tsi, *bounds) + grid_row_tiles(g, types, gy as int, gx + 1, tsi, *bounds)
                        =~= grid_tiles(g, types, gy as int, tsi, *bounds) + grid_row_tiles(g, types, gy as int, gx as int, tsi, *bounds)
                        + block_tiles(g, types, gx as int, gy as int, tsi, *bounds));
                }
                gx = gx + 1;
            }
            proof {
                assert(grid_tiles(g, types, gy + 1, tsi, *bounds) == grid_tiles(g, types, gy as int, tsi, *bounds)
                    + grid_row_tiles(g, types, gy as int, g[gy as int].len() as int, tsi, *bounds));
            }
            gy = gy + 1;
        }
        groups
    }
}

/// Blocks of a grid over `w` cells of blocks `ts` wide end inside it.
proof fn lemma_blocks_inside(gx: int, ts: int, w: int)
    requires
        ts > 0,
        0 <= gx < w / ts,
        w >= 0,
    ensures
        (gx + 1) * ts <= w,
{
    assert((gx + 1) * ts <= (w / ts) * ts) by (nonlinear_arith)
        requires
            gx + 1 <= w / ts,
            ts > 0,
    ;
    assert((w / ts) * ts <= w) by (nonlinear_arith)
        requires
            ts > 0,
            w >= 0,
    ;
}

/// A fresh block open to every one of `n` patterns.
fn fresh_cell(n: usize) -> (c: Cell)
    ensures
        fresh(c, n as int),
{
    let mut ps: Vec<usize> = Vec::new();
    let mut i: usize = 0;
    while i < n
        invariant
            i <= n,
            ps@.len() == i,
            forall|j: int| 0 <= j < i ==> ps@[j] == j,
        decreases n - i,
    {
        ps.push(i);
        i = i + 1;
    }
    let c = Cell { possible_patterns: ps, collapsed: false };
    proof {
        assert(options(c) =~= all_of(n as int));
    }
    c
}

impl WaveFunctionCollapseGenerator {
    /// Collapse the blocks of the bounds one at a time, at most the
    /// configured number of times, picking by minimum entropy, and lay out
    /// the collapsed blocks' tiles by type. As every block keeps all
    /// patterns until it collapses, the blocks collapse in row order; which
    /// pattern each takes is drawn from the random source.
    pub fn generate(&self, bounds: Rectangle, rng: &mut ChaCha8Rng) -> (r: Vec<(String, Vec<(u32, u32)>)>)
        requires
            self.wf(),
            self.params.tile_size > 0,
            bounds.fits(),
            bounds.width <= i32::MAX,
            bounds.height <= i32::MAX,
            self.patterns@.len() * 0x1_0000_0000 <= usize::MAX,
        ensures
            exists|g: Seq<Seq<Cell>>, kx: int, ky: int| {
                &&& #[trigger] layout_state(
                    g,
                    (bounds.width / self.params.tile_size) as int,
                    (bounds.height / self.params.tile_size) as int,
                    self.patterns@.len() as int,
                    kx,
                    ky,
                )
                &&& ky * ((bounds.width / self.params.tile_size) as int) + kx == collapse_steps(
                    self.patterns@.len() as int,
                    (bounds.width / self.params.tile_size) as int,
                    (bounds.height / self.params.tile_size) as int,
                    self.params.max_iterations as int,
                )
                &&& groups_view(r@) == grouped(
                    grid_tiles(g, self.types(), (bounds.height / self.params.tile_size) as int, self.params.tile_size as int, bounds),
                )
            },
    {
        let ts = self.params.tile_size;
        let gw = (bounds.width / ts) as usize;
        let gh = (bounds.height / ts) as usize;
        let n = self.patterns.len();
        let mut grid: Vec<Vec<Cell>> = Vec::new();
        let mut y: usize = 0;
        while y < gh
            invariant
                y <= gh,
                grid@.len() == y,
                forall|r: int| 0 <= r < y ==> (#[trigger] grid@[r])@.len() == gw,
                forall|r: int, c: int| 0 <= r < y && 0 <= c < gw ==> fresh(#[trigger] grid@[r]@[c], n as int),
            decreases gh - y,
        {
            let mut row: Vec<Cell> = Vec::new();
            let mut x: usize = 0;
            while x < gw
                invariant
                    x <= gw,
                    row@.len() == x,
                    forall|c: int| 0 <= c < x ==> fresh(#[trigger] row@[c], n as int),
                decreases gw - x,
            {
                row.push(fresh_cell(n));
                x = x + 1;
            }
            grid.push(row);
            y = y + 1;
        }
        let ghost mut kx: int = 0;
        let ghost mut ky: int = if gw == 0 { gh as int } else { 0 };
        let mut iterations: u32 = 0;
        let mut stuck = false;
        while iterations < self.params.max_iterations && !stuck && !self.is_fully_collapsed(&grid)
            invariant
                self.wf(),
                n == self.patterns@.len(),
                n * 0x1_0000_0000 <= usize::MAX,
                gw <= i32::MAX,
                gh <= i32::MAX,
                grid@.len() == gh,
                forall|r: int| 0 <= r < gh ==> (#[trigger] grid@[r])@.len() == gw,
                layout_state(blocks(grid@), gw as int, gh as int, n as int, kx, ky),
                0 <= ky <= gh,
                ky < gh ==> 0 <= kx < gw,
                ky == gh ==> kx == 0,
                gw == 0 ==> ky == gh,
                n == 0 ==> kx == 0 && (ky == 0 || gw == 0),
                n > 0 ==> iterations == ky * gw + kx,
                n == 0 ==> iterations == 0,
                iterations <= self.params.max_iterations,
                stuck ==> n == 0,
            decreases (if stuck { 0int } else { 1int }) + self.params.max_iterations - iterations,
        {
            let ghost g0 = blocks(grid@);
            proof {
                if n > 0 && ky < gh {
                    lemma_pick_next(g0, gw as int, gh as int, n as int, kx, ky);
                }
            }
            match self.find_minimum_entropy_cell(&grid) {
                Some((x, yy)) => {
                    proof {
                        if n == 0 || ky == gh {
                            assert(g0[yy as int].len() == gw);
                            if before(x as int, yy as int, kx, ky) {
                                assert(settled(g0[yy as int][x as int], n as int));
                            } else {
                                assert(fresh(g0[yy as int][x as int], n as int));
                                assert(g0[yy as int][x as int].possible_patterns@.len() == options(g0[yy as int][x as int]).len());
                            }
                        }
                        lemma_pick_unique(g0, x as int, yy as int, kx, ky);
                        assert(g0[yy as int] == grid@[yy as int]@);
                        assert(grid@[yy as int]@[x as int] == g0[yy as int][x as int]);
                        let c0 = g0[ky][kx];
                        assert(fresh(c0, n as int));
                        assert(options(c0) == all_of(n as int));
                        assert(options(c0).len() == c0.possible_patterns@.len());
                        assert forall|k: int| 0 <= k < grid@[yy as int]@[x as int].possible_patterns@.len()
                            implies (#[trigger] grid@[yy as int]@[x as int].possible_patterns@[k]) < self.patterns@.len() by {
                            assert(options(c0)[k] == c0.possible_patterns@[k] as int);
                            assert(all_of(n as int)[k] == k);
                        }
                        assert(grid@[yy as int]@[x as int].possible_patterns@.len() == n);
                    }
                    let ghost gpre = grid@;
                    self.collapse_cell(&mut grid, x, yy, rng);
                    proof {
                        let c = grid@[yy as int]@[x as int];
                        let p = c.possible_patterns@[0];
                        let old_c = g0[yy as int][x as int];
                        assert(old_c.possible_patterns@.contains(p));
                        let j = choose|j: int| 0 <= j < old_c.possible_patterns@.len() && old_c.possible_patterns@[j] == p;
                        assert(options(old_c)[j] == p as int);
                        assert(settled(c, n as int));
                        assert(grid@[0]@.len() == gw);
                    }
                    let ghost g1 = grid@;
                    self.propagate_constraints(&mut grid, x, yy);
                    proof {
                        let (nx, ny) = next_block(kx, ky, gw as int);
                        assert forall|r: int| 0 <= r < gh implies (#[trigger] grid@[r])@.len() == gw by {
                            assert(grid@[r]@.len() == g1[r]@.len());
                            assert(gpre[r]@.len() == gw);
                            if r != yy {
                                assert(g1[r] == gpre[r]);
                            }
                        }
                        assert forall|r: int, c: int| 0 <= r < gh && 0 <= c < gw implies if before(c, r, nx, ny) {
                            settled(#[trigger] blocks(grid@)[r][c], n as int)
                        } else {
                            fresh(blocks(grid@)[r][c], n as int)
                        } by {
                            assert(blocks(grid@)[r] == grid@[r]@);
                            assert(grid@[r]@[c].collapsed == g1[r]@[c].collapsed);
                            assert(grid@[r]@[c].possible_patterns@ == g1[r]@[c].possible_patterns@);
                            assert(g0[r] == gpre[r]@);
                            if r != yy {
                                assert(g1[r] == gpre[r]);
                            } else if c != x {
                                assert(g1[r]@[c] == g0[r][c]);
                            }
                            assert(blocks(g1)[r] == g1[r]@);
                        }
                        kx = nx;
                        ky = ny;
                        assert(iterations + 1 == ky * gw + kx) by (nonlinear_arith)
                            requires
                                iterations == (if kx == 0 { ky - 1 } else { ky }) * gw + (if kx == 0 { gw - 1 } else { kx - 1 }),
                                gw > 0,
                        ;
                    }
                    iterations = iterations + 1;
                },
                None => {
                    proof {
                        if n > 0 {
                            if ky < gh {
                                assert(g0[ky].len() == gw);
                                let c0 = g0[ky][kx];
                                assert(fresh(c0, n as int));
                                assert(options(c0).len() == c0.possible_patterns@.len());
                                assert(!c0.collapsed);
                            } else {
                                assert forall|yy: int, x: int| 0 <= yy < grid@.len() && 0 <= x < grid@[yy]@.len()
                                    implies (#[trigger] grid@[yy]@[x]).collapsed by {
                                    assert(g0[yy] == grid@[yy]@);
                                    assert(settled(g0[yy][x], n as int));
                                }
                            }
                        }
                    }
                    stuck = true;
                },
            }
        }
        proof {
            let g = blocks(grid@);
            if !stuck && iterations < self.params.max_iterations && n > 0 && ky < gh {
                assert(grid@[ky]@.len() == gw);
                assert(fresh(g[ky][kx], n as int));
                assert(!grid@[ky]@[kx].collapsed);
            }
            if n > 0 {
                assert(ky * gw + kx <= gh * gw) by (nonlinear_arith)
                    requires
                        0 <= ky <= gh,
                        ky < gh ==> 0 <= kx < gw,
                        ky == gh ==> kx == 0,
                        gw >= 0,
                ;
                if ky < gh {
                    assert(ky * gw + kx < gh * gw) by (nonlinear_arith)
                        requires
                            0 <= ky < gh,
                            0 <= kx < gw,
                    ;
                }
                assert(gw * gh == gh * gw) by (nonlinear_arith);
            } else {
                assert(ky * gw + kx == 0) by (nonlinear_arith)
                    requires
                        kx == 0,
                        ky == 0 || gw == 0,
                ;
            }
            assert forall|yy: int, x: int| 0 <= yy < g.len() && 0 <= x < g[yy].len() && (#[trigger] g[yy][x]).collapsed implies {
                &&& bounds.x + (x + 1) * (ts as int) <= u32::MAX
                &&& bounds.y + (yy + 1) * (ts as int) <= u32::MAX
            } by {
                assert(g[yy] == grid@[yy]@);
                lemma_blocks_inside(x, ts as int, bounds.width as int);
                lemma_blocks_inside(yy, ts as int, bounds.height as int);
            }
            assert forall|yy: int, x: int| 0 <= yy < grid@.len() && 0 <= x < grid@[yy]@.len() && (#[trigger] grid@[yy]@[x]).collapsed
                && grid@[yy]@[x].possible_patterns@.len() > 0 implies grid@[yy]@[x].possible_patterns@[0] < self.patterns@.len() by {
                assert(g[yy] == grid@[yy]@);
                if !before(x, yy, kx, ky) {
                    assert(fresh(g[yy][x], n as int));
                }
            }
        }
        let r = self.grid_to_world_coords(&grid, &bounds);
        proof {
            assert(layout_state(blocks(grid@), gw as int, gh as int, n as int, kx, ky));
        }
        r
    }
}


} // verus!
