//! Building prefabs: character patterns turned into grids of cells, and the
//! rotations and mirrorings a settlement places them in.

use vstd::prelude::*;
use vstd::arithmetic::div_mod::{lemma_fundamental_div_mod, lemma_fundamental_div_mod_converse};
use crate::map::{cell_index, lemma_cell_index_bounds};
use crate::text::{decimal, push_decimal_usize, push_char};

verus! {

/// One cell of a prefab.
#[derive(Debug)]
pub struct PrefabCell {
    pub tile: String,
    pub marker: Option<String>,
    pub mask: Option<String>,
}

fn clone_opt(o: &Option<String>) -> (c: Option<String>)
    ensures
        c == *o,
{
    match o {
        Some(s) => Some(s.clone()),
        None => None,
    }
}

impl Clone for PrefabCell {
    fn clone(&self) -> (c: Self)
        ensures
            c == *self,
    {
        PrefabCell { tile: self.tile.clone(), marker: clone_opt(&self.marker), mask: clone_opt(&self.mask) }
    }
}

/// Descriptive data about a prefab.
#[derive(Debug, Clone)]
pub struct PrefabMetadata {
    pub entrance_side: String,
    pub has_interior: bool,
    pub npc_count: usize,
    pub npc_types: Vec<String>,
    pub description: String,
}

impl Default for PrefabMetadata {
    fn default() -> (m: Self)
        ensures
            m.entrance_side@.len() == 0,
            !m.has_interior,
            m.npc_count == 0,
            m.npc_types@.len() == 0,
            m.description@.len() == 0,
    {
        PrefabMetadata {
            entrance_side: String::new(),
            has_interior: false,
            npc_count: 0,
            npc_types: Vec::new(),
            description: String::new(),
        }
    }
}

/// A placed building pattern: `cells` holds `width * height` cells row by row.
#[derive(Debug, Clone)]
pub struct Prefab {
    pub name: String,
    pub width: usize,
    pub height: usize,
    pub cells: Vec<PrefabCell>,
    /// The selection weight, kept as the bits of its `f32` value.
    pub weight_bits: u32,
    pub tags: Vec<String>,
    pub faction: Option<String>,
    pub metadata: PrefabMetadata,
}

/// The cells turned a quarter clockwise: the grid becomes `h` wide and `w`
/// high, and its cell `(nx, ny)` is the old cell `(ny, h - 1 - nx)`.
pub open spec fn rotated_cells(c: Seq<PrefabCell>, w: int, h: int) -> Seq<PrefabCell> {
    Seq::new((w * h) as nat, |i: int| c[cell_index(w, i / h, h - 1 - i % h)])
}

/// The cells mirrored left to right.
pub open spec fn mirrored_h_cells(c: Seq<PrefabCell>, w: int, h: int) -> Seq<PrefabCell> {
    Seq::new((w * h) as nat, |i: int| c[cell_index(w, w - 1 - i % w, i / w)])
}

/// The cells mirrored top to bottom.
pub open spec fn mirrored_v_cells(c: Seq<PrefabCell>, w: int, h: int) -> Seq<PrefabCell> {
    Seq::new((w * h) as nat, |i: int| c[cell_index(w, i % w, h - 1 - i / w)])
}

impl Prefab {
    /// One cell per grid position.
    pub open spec fn wf(&self) -> bool {
        self.cells@.len() == self.width * self.height
    }

    /// The cell at `(x, y)`; `None` outside the grid or past the stored cells.
    pub fn get(&self, x: usize, y: usize) -> (r: Option<&PrefabCell>)
        ensures
            (x >= self.width || y >= self.height) ==> r is None,
            (x < self.width && y < self.height) ==> (if cell_index(self.width as int, x as int, y as int) < self.cells@.len() {
                r == Some(&self.cells@[cell_index(self.width as int, x as int, y as int)])
            } else {
                r is None
            }),
    {
        if x >= self.width || y >= self.height {
            return None;
        }
        let n = self.cells.len();
        if y > n / self.width {
            proof {
                assert(cell_index(self.width as int, x as int, y as int) >= n) by (nonlinear_arith)
                    requires
                        y > n / self.width,
                        self.width > 0,
                        x >= 0;
            }
            return None;
        }
        proof {
            assert(y * self.width <= n) by (nonlinear_arith)
                requires
                    y <= n / self.width,
                    self.width > 0;
        }
        let row_start = y * self.width;
        if x < n - row_start {
            Some(&self.cells[row_start + x])
        } else {
            None
        }
    }

    /// The prefab turned a quarter clockwise; its name gains "_rotated".
    pub fn rotated(&self) -> (p: Self)
        requires
            self.wf(),
        ensures
            p.wf(),
            p.name@ == self.name@ + "_rotated"@,
            p.width == self.height,
            p.height == self.width,
            p.cells@ == rotated_cells(self.cells@, self.width as int, self.height as int),
            p.weight_bits == self.weight_bits,
            p.faction == self.faction,
    {
        let w = self.width;
        let h = self.height;
        let ghost c = self.cells@;
        let n = self.cells.len();
        let mut cells: Vec<PrefabCell> = Vec::new();
        let mut ny: usize = 0;
        proof {
            assert(0 * h == 0);
        }
        while ny < w
            invariant
                c == self.cells@,
                c.len() == w * h,
                n == c.len(),
                ny <= w,
                cells@ == rotated_cells(c, w as int, h as int).subrange(0, ny * h),
            decreases w - ny,
        {
            let mut nx: usize = 0;
            while nx < h
                invariant
                    c == self.cells@,
                    c.len() == w * h,
                    n == c.len(),
                    ny < w,
                    nx <= h,
                    cells@ == rotated_cells(c, w as int, h as int).subrange(0, ny * h + nx),
                decreases h - nx,
            {
                let oy = h - 1 - nx;
                proof {
                    lemma_cell_index_bounds(w as int, h as int, ny as int, oy as int);
                    lemma_fundamental_div_mod_converse(ny * h + nx, h as int, ny as int, nx as int);
                    assert(ny * h + nx < w * h) by (nonlinear_arith)
                        requires ny < w, nx < h;
                }
                let idx = oy * w + ny;
                let cell = self.cells[idx].clone();
                cells.push(cell);
                proof {
                    assert(cells@ =~= rotated_cells(c, w as int, h as int).subrange(0, ny * h + nx + 1));
                }
                nx = nx + 1;
            }
            proof {
                assert(ny * h + h == (ny + 1) * h) by (nonlinear_arith);
            }
            ny = ny + 1;
        }
        proof {
            assert(w * h == h * w) by (nonlinear_arith);
            assert(cells@ =~= rotated_cells(c, w as int, h as int));
        }
        let mut name = self.name.clone();
        name.append("_rotated");
        Prefab {
            name,
            width: h,
            height: w,
            cells,
            weight_bits: self.weight_bits,
            tags: self.tags.clone(),
            faction: clone_opt(&self.faction),
            metadata: self.metadata.clone(),
        }
    }
}

impl Prefab {
    /// The prefab mirrored left to right; its name gains "_mirrored_h".
    pub fn mirrored_horizontal(&self) -> (p: Self)
        requires
            self.wf(),
        ensures
            p.wf(),
            p.name@ == self.name@ + "_mirrored_h"@,
            p.width == self.width,
            p.height == self.height,
            p.cells@ == mirrored_h_cells(self.cells@, self.width as int, self.height as int),
            p.weight_bits == self.weight_bits,
            p.faction == self.faction,
    {
        let w = self.width;
        let h = self.height;
        let ghost c = self.cells@;
        let n = self.cells.len();
        let mut cells: Vec<PrefabCell> = Vec::new();
        let mut y: usize = 0;
        proof {
            assert(0 * w == 0);
        }
        while y < h
            invariant
                c == self.cells@,
                c.len() == w * h,
                n == c.len(),
                y <= h,
                cells@ == mirrored_h_cells(c, w as int, h as int).subrange(0, y * w),
            decreases h - y,
        {
            let mut x: usize = 0;
            while x < w
                invariant
                    c == self.cells@,
                    c.len() == w * h,
                    n == c.len(),
                    y < h,
                    x <= w,
                    cells@ == mirrored_h_cells(c, w as int, h as int).subrange(0, y * w + x),
                decreases w - x,
            {
                let ox = w - 1 - x;
                proof {
                    lemma_cell_index_bounds(w as int, h as int, ox as int, y as int);
                    lemma_fundamental_div_mod_converse(y * w + x, w as int, y as int, x as int);
                    assert(y * w + x < w * h) by (nonlinear_arith)
                        requires y < h, x < w;
                }
                let cell = self.cells[y * w + ox].clone();
                cells.push(cell);
                proof {
                    assert(cells@ =~= mirrored_h_cells(c, w as int, h as int).subrange(0, y * w + x + 1));
                }
                x = x + 1;
            }
            proof {
                assert(y * w + w == (y + 1) * w) by (nonlinear_arith);
            }
            y = y + 1;
        }
        proof {
            assert(h * w == w * h) by (nonlinear_arith);
            assert(cells@ =~= mirrored_h_cells(c, w as int, h as int));
        }
        let mut name = self.name.clone();
        name.append("_mirrored_h");
        Prefab {
            name,
            width: w,
            height: h,
            cells,
            weight_bits: self.weight_bits,
            tags: self.tags.clone(),
            faction: clone_opt(&self.faction),
            metadata: self.metadata.clone(),
        }
    }

    /// The prefab mirrored top to bottom; its name gains "_mirrored_v".
    pub fn mirrored_vertical(&self) -> (p: Self)
        requires
            self.wf(),
        ensures
            p.wf(),
            p.name@ == self.name@ + "_mirrored_v"@,
            p.width == self.width,
            p.height == self.height,
            p.cells@ == mirrored_v_cells(self.cells@, self.width as int, self.height as int),
            p.weight_bits == self.weight_bits,
            p.faction == self.faction,
    {
        let w = self.width;
        let h = self.height;
        let ghost c = self.cells@;
        let n = self.cells.len();
        let mut cells: Vec<PrefabCell> = Vec::new();
        let mut y: usize = 0;
        proof {
            assert(0 * w == 0);
        }
        while y < h
            invariant
                c == self.cells@,
                c.len() == w * h,
                n == c.len(),
                y <= h,
                cells@ == mirrored_v_cells(c, w as int, h as int).subrange(0, y * w),
            decreases h - y,
        {
            let mut x: usize = 0;
            while x < w
                invariant
                    c == self.cells@,
                    c.len() == w * h,
                    n == c.len(),
                    y < h,
                    x <= w,
                    cells@ == mirrored_v_cells(c, w as int, h as int).subrange(0, y * w + x),
                decreases w - x,
            {
                let oy = h - 1 - y;
                proof {
                    lemma_cell_index_bounds(w as int, h as int, x as int, oy as int);
                    lemma_fundamental_div_mod_converse(y * w + x, w as int, y as int, x as int);
                    assert(y * w + x < w * h) by (nonlinear_arith)
                        requires y < h, x < w;
                }
                let cell = self.cells[oy * w + x].clone();
                cells.push(cell);
                proof {
                    assert(cells@ =~= mirrored_v_cells(c, w as int, h as int).subrange(0, y * w + x + 1));
                }
                x = x + 1;
            }
            proof {
                assert(y * w + w == (y + 1) * w) by (nonlinear_arith);
            }
            y = y + 1;
        }
        proof {
            assert(h * w == w * h) by (nonlinear_arith);
            assert(cells@ =~= mirrored_v_cells(c, w as int, h as int));
        }
        let mut name = self.name.clone();
        name.append("_mirrored_v");
        Prefab {
            name,
            width: w,
            height: h,
            cells,
            weight_bits: self.weight_bits,
            tags: self.tags.clone(),
            faction: clone_opt(&self.faction),
            metadata: self.metadata.clone(),
        }
    }
}

/// Position `i` of a `w`-wide grid of `w * h` cells splits into a column
/// and a row inside the grid.
proof fn lemma_split_index(i: int, w: int, h: int)
    requires
        0 <= i < w * h,
        w > 0,
        h > 0,
    ensures
        0 <= i % w < w,
        0 <= i / w < h,
        i == cell_index(w, i % w, i / w),
{
    lemma_fundamental_div_mod(i, w);
    assert(0 <= i % w < w) by {
        vstd::arithmetic::div_mod::lemma_mod_bound(i, w);
    }
    assert(0 <= i / w) by {
        vstd::arithmetic::div_mod::lemma_div_pos_is_pos(i, w);
    }
    let q = i / w;
    let r = i % w;
    assert(i == w * q + r);
    assert(q < h) by (nonlinear_arith)
        requires
            i == w * q + r,
            0 <= r,
            i < w * h,
            w > 0,
    ;
    assert(w * (i / w) == (i / w) * w) by (nonlinear_arith);
}

/// Mirroring left to right twice gives back the cells it started with.
pub proof fn law_mirror_h_twice(c: Seq<PrefabCell>, w: int, h: int)
    requires
        w >= 0,
        h >= 0,
        c.len() == w * h,
    ensures
        mirrored_h_cells(mirrored_h_cells(c, w, h), w, h) == c,
{
    let m = mirrored_h_cells(c, w, h);
    let mm = mirrored_h_cells(m, w, h);
    assert forall|i: int| 0 <= i < c.len() implies mm[i] == c[i] by {
        assert(w > 0 && h > 0) by (nonlinear_arith)
            requires 0 <= i < w * h, w >= 0, h >= 0;
        lemma_split_index(i, w, h);
        let x = i % w;
        let y = i / w;
        let j = cell_index(w, w - 1 - x, y);
        lemma_cell_index_bounds(w, h, w - 1 - x, y);
        lemma_fundamental_div_mod_converse(j, w, y, w - 1 - x);
    }
    assert(mm =~= c);
}

/// Mirroring top to bottom twice gives back the cells it started with.
pub proof fn law_mirror_v_twice(c: Seq<PrefabCell>, w: int, h: int)
    requires
        w >= 0,
        h >= 0,
        c.len() == w * h,
    ensures
        mirrored_v_cells(mirrored_v_cells(c, w, h), w, h) == c,
{
    let m = mirrored_v_cells(c, w, h);
    let mm = mirrored_v_cells(m, w, h);
    assert forall|i: int| 0 <= i < c.len() implies mm[i] == c[i] by {
        assert(w > 0 && h > 0) by (nonlinear_arith)
            requires 0 <= i < w * h, w >= 0, h >= 0;
        lemma_split_index(i, w, h);
        let x = i % w;
        let y = i / w;
        let j = cell_index(w, x, h - 1 - y);
        lemma_cell_index_bounds(w, h, x, h - 1 - y);
        lemma_fundamental_div_mod_converse(j, w, h - 1 - y, x);
    }
    assert(mm =~= c);
}

/// The cells turned half round.
pub open spec fn half_turn_cells(c: Seq<PrefabCell>, w: int, h: int) -> Seq<PrefabCell> {
    Seq::new((w * h) as nat, |i: int| c[cell_index(w, w - 1 - i % w, h - 1 - i / w)])
}

/// Two quarter turns make a half turn.
proof fn lemma_two_quarters(c: Seq<PrefabCell>, w: int, h: int)
    requires
        w >= 0,
        h >= 0,
        c.len() == w * h,
    ensures
        rotated_cells(rotated_cells(c, w, h), h, w) == half_turn_cells(c, w, h),
{
    let r1 = rotated_cells(c, w, h);
    let r2 = rotated_cells(r1, h, w);
    let t = half_turn_cells(c, w, h);
    assert(h * w == w * h) by (nonlinear_arith);
    assert forall|i: int| 0 <= i < t.len() implies r2[i] == t[i] by {
        assert(w > 0 && h > 0) by (nonlinear_arith)
            requires 0 <= i < w * h, w >= 0, h >= 0;
        lemma_split_index(i, w, h);
        let x = i % w;
        let y = i / w;
        let j = cell_index(h, y, w - 1 - x);
        lemma_cell_index_bounds(h, w, y, w - 1 - x);
        lemma_fundamental_div_mod_converse(j, h, w - 1 - x, y);
        lemma_cell_index_bounds(w, h, w - 1 - x, h - 1 - y);
    }
    assert(r2 =~= t);
}

/// A half turn done twice gives back the cells it started with.
proof fn lemma_half_turn_twice(c: Seq<PrefabCell>, w: int, h: int)
    requires
        w >= 0,
        h >= 0,
        c.len() == w * h,
    ensures
        half_turn_cells(half_turn_cells(c, w, h), w, h) == c,
{
    let t = half_turn_cells(c, w, h);
    let tt = half_turn_cells(t, w, h);
    assert forall|i: int| 0 <= i < c.len() implies tt[i] == c[i] by {
        assert(w > 0 && h > 0) by (nonlinear_arith)
            requires 0 <= i < w * h, w >= 0, h >= 0;
        lemma_split_index(i, w, h);
        let x = i % w;
        let y = i / w;
        let j = cell_index(w, w - 1 - x, h - 1 - y);
        lemma_cell_index_bounds(w, h, w - 1 - x, h - 1 - y);
        lemma_fundamental_div_mod_converse(j, w, h - 1 - y, w - 1 - x);
    }
    assert(tt =~= c);
}

/// Four quarter turns give back the cells they started with.
pub proof fn law_rotate_four_times(c: Seq<PrefabCell>, w: int, h: int)
    requires
        w >= 0,
        h >= 0,
        c.len() == w * h,
    ensures
        rotated_cells(rotated_cells(rotated_cells(rotated_cells(c, w, h), h, w), w, h), h, w) == c,
{
    lemma_two_quarters(c, w, h);
    let t = half_turn_cells(c, w, h);
    assert(t.len() == w * h);
    lemma_two_quarters(t, w, h);
    lemma_half_turn_twice(c, w, h);
}

/// After a quarter turn clockwise, the cell that was at `(x, y)` stands at
/// `(h - 1 - y, x)` of the turned grid, which is `h` wide.
pub proof fn law_rotated_cell(c: Seq<PrefabCell>, w: int, h: int, x: int, y: int)
    requires
        c.len() == w * h,
        0 <= x < w,
        0 <= y < h,
    ensures
        0 <= cell_index(h, h - 1 - y, x) < rotated_cells(c, w, h).len(),
        rotated_cells(c, w, h)[cell_index(h, h - 1 - y, x)] == c[cell_index(w, x, y)],
{
    let j = cell_index(h, h - 1 - y, x);
    lemma_cell_index_bounds(h, w, h - 1 - y, x);
    assert(w * h == h * w) by (nonlinear_arith);
    lemma_fundamental_div_mod_converse(j, h, x, h - 1 - y);
}

/// Mirroring top to bottom moves the cell at `(x, y)` to `(x, h - 1 - y)`.
pub proof fn law_mirrored_v_cell(c: Seq<PrefabCell>, w: int, h: int, x: int, y: int)
    requires
        c.len() == w * h,
        0 <= x < w,
        0 <= y < h,
    ensures
        0 <= cell_index(w, x, h - 1 - y) < mirrored_v_cells(c, w, h).len(),
        mirrored_v_cells(c, w, h)[cell_index(w, x, h - 1 - y)] == c[cell_index(w, x, y)],
{
    let j = cell_index(w, x, h - 1 - y);
    lemma_cell_index_bounds(w, h, x, h - 1 - y);
    lemma_fundamental_div_mod_converse(j, w, h - 1 - y, x);
}

/// Mirroring left to right moves the cell at `(x, y)` to `(w - 1 - x, y)`.
pub proof fn law_mirrored_h_cell(c: Seq<PrefabCell>, w: int, h: int, x: int, y: int)
    requires
        c.len() == w * h,
        0 <= x < w,
        0 <= y < h,
    ensures
        0 <= cell_index(w, w - 1 - x, y) < mirrored_h_cells(c, w, h).len(),
        mirrored_h_cells(c, w, h)[cell_index(w, w - 1 - x, y)] == c[cell_index(w, x, y)],
{
    let j = cell_index(w, w - 1 - x, y);
    lemma_cell_index_bounds(w, h, w - 1 - x, y);
    lemma_fundamental_div_mod_converse(j, w, y, w - 1 - x);
}

/// What a legend character of a prefab pattern places.
#[derive(Debug, Clone)]
pub struct LegendEntry {
    pub tile: String,
    pub marker: Option<String>,
    pub mask: Option<String>,
}

/// A prefab as it is written down.
pub struct PrefabData {
    pub name: String,
    pub width: usize,
    pub height: usize,
    pub pattern: Vec<String>,
    /// Single-character keys with what they place.
    pub legend: Vec<(String, LegendEntry)>,
    /// The selection weight, kept as the bits of its `f32` value.
    pub weight_bits: u32,
    pub tags: Vec<String>,
    pub faction: Option<String>,
    pub metadata: PrefabMetadata,
}

/// The pattern's characters, row after row.
pub open spec fn flat_chars(rows: Seq<String>) -> Seq<char>
    decreases rows.len(),
{
    if rows.len() == 0 {
        Seq::empty()
    } else {
        flat_chars(rows.drop_last()) + rows.last()@
    }
}

/// Position of the last legend entry keyed by the character.
pub open spec fn legend_slot(legend: Seq<(String, LegendEntry)>, c: char) -> Option<int>
    decreases legend.len(),
{
    if legend.len() == 0 {
        None
    } else if legend.last().0@ == seq![c] {
        Some(legend.len() - 1)
    } else {
        legend_slot(legend.drop_last(), c)
    }
}

/// The cell a legend entry places.
pub open spec fn entry_cell(e: LegendEntry) -> PrefabCell {
    PrefabCell { tile: e.tile, marker: e.marker, mask: e.mask }
}

/// The cells of the characters, or `None` when one is missing from the legend.
pub open spec fn cells_for(chars: Seq<char>, legend: Seq<(String, LegendEntry)>) -> Seq<PrefabCell> {
    chars.map_values(|c: char| entry_cell(legend[legend_slot(legend, c)->0].1))
}

/// Length in bytes of a string's UTF-8 encoding, as `str::len` gives it.
pub open spec fn byte_len(s: String) -> usize {
    vstd::utf8::encode_utf8(s@).len() as usize
}

/// The first row whose byte length is not the width.
pub open spec fn first_bad_row(rows: Seq<String>, width: usize) -> Option<int> {
    if exists|i: int| 0 <= i < rows.len() && byte_len(#[trigger] rows[i]) != width {
        Some(choose|i: int|
            0 <= i < rows.len() && byte_len(#[trigger] rows[i]) != width && forall|j: int|
                0 <= j < i ==> byte_len(#[trigger] rows[j]) == width)
    } else {
        None
    }
}

/// The first character missing from the legend.
pub open spec fn first_missing(chars: Seq<char>, legend: Seq<(String, LegendEntry)>) -> Option<int> {
    if exists|k: int| 0 <= k < chars.len() && legend_slot(legend, #[trigger] chars[k]) is None {
        Some(choose|k: int|
            0 <= k < chars.len() && legend_slot(legend, #[trigger] chars[k]) is None && forall|j: int|
                0 <= j < k ==> legend_slot(legend, #[trigger] chars[j]) is Some)
    } else {
        None
    }
}

/// The refusal messages.
pub open spec fn rows_error(name: Seq<char>, rows: nat, height: nat) -> Seq<char> {
    "Prefab '"@ + name + "': pattern has "@ + decimal(rows) + " rows but height is "@ + decimal(height)
}

pub open spec fn width_error(name: Seq<char>, row: nat, len: nat, width: nat) -> Seq<char> {
    "Prefab '"@ + name + "': row "@ + decimal(row) + " has "@ + decimal(len) + " chars but width is "@
        + decimal(width)
}

pub open spec fn legend_missing_error(name: Seq<char>, c: char) -> Seq<char> {
    "Prefab '"@ + name + "': character '"@ + seq![c] + "' not found in legend"@
}

/// What parsing prefab data gives: refused on a row count other than the
/// height, then on the first row whose byte length is not the width, then on
/// the first character missing from the legend; otherwise a prefab whose
/// cells are the characters' legend entries, row after row.
pub open spec fn prefab_outcome(d: PrefabData, r: Result<Prefab, String>) -> bool {
    let chars = flat_chars(d.pattern@);
    if d.pattern@.len() != d.height {
        r matches Err(e) && e@ == rows_error(d.name@, d.pattern@.len(), d.height as nat)
    } else if first_bad_row(d.pattern@, d.width) is Some {
        let i = first_bad_row(d.pattern@, d.width)->0;
        r matches Err(e) && e@ == width_error(d.name@, i as nat, byte_len(d.pattern@[i]) as nat, d.width as nat)
    } else if first_missing(chars, d.legend@) is Some {
        r matches Err(e) && e@ == legend_missing_error(d.name@, chars[first_missing(chars, d.legend@)->0])
    } else {
        r matches Ok(p) && p.name@ == d.name@ && p.width == d.width && p.height == d.height && p.cells@
            == cells_for(chars, d.legend@) && p.weight_bits == d.weight_bits && p.tags@ == d.tags@
            && p.faction == d.faction && p.metadata == d.metadata
    }
}

proof fn lemma_legend_slot_in_range(legend: Seq<(String, LegendEntry)>, c: char)
    ensures
        legend_slot(legend, c) matches Some(i) ==> 0 <= i < legend.len(),
    decreases legend.len(),
{
    if legend.len() > 0 {
        lemma_legend_slot_in_range(legend.drop_last(), c);
    }
}

fn find_legend(legend: &Vec<(String, LegendEntry)>, c: char) -> (r: Option<usize>)
    ensures
        r matches Some(i) ==> legend_slot(legend@, c) == Some(i as int),
        r is None ==> legend_slot(legend@, c) is None,
{
    let mut key = String::new();
    push_char(&mut key, c);
    assert(key@ =~= seq![c]);
    let mut i = legend.len();
    assert(legend@.subrange(0, i as int) =~= legend@);
    while i > 0
        invariant
            i <= legend@.len(),
            key@ == seq![c],
            legend_slot(legend@, c) == legend_slot(legend@.subrange(0, i as int), c),
        decreases i,
    {
        let ghost prefix = legend@.subrange(0, i as int);
        if legend[i - 1].0 == key {
            assert(prefix.last() == legend@[i - 1]);
            return Some(i - 1);
        }
        assert(prefix.drop_last() =~= legend@.subrange(0, i - 1));
        i = i - 1;
    }
    None
}

fn prefab_message(name: &String, parts: &str) -> (e: String)
    ensures
        e@ == "Prefab '"@ + name@ + parts@,
{
    let mut e = String::from_str("Prefab '");
    e.append(name.as_str());
    e.append(parts);
    e
}

proof fn lemma_flat_chars_push(rows: Seq<String>, i: int)
    requires
        0 <= i < rows.len(),
    ensures
        flat_chars(rows.subrange(0, i + 1)) == flat_chars(rows.subrange(0, i)) + rows[i]@,
{
    assert(rows.subrange(0, i + 1).drop_last() =~= rows.subrange(0, i));
}

impl Prefab {
    /// Parse prefab data: the pattern must have `height` rows of `width`
    /// bytes, and every character must be in the legend.
    #[verifier::rlimit(40)]
    pub fn from_data(data: PrefabData) -> (r: Result<Prefab, String>)
        ensures
            prefab_outcome(data, r),
    {
        let ghost d = data;
        let h = data.pattern.len();
        if h != data.height {
            let mut e = prefab_message(&data.name, "': pattern has ");
            push_decimal_usize(&mut e, h);
            e.append(" rows but height is ");
            push_decimal_usize(&mut e, data.height);
            proof {
                assert(e@ =~= rows_error(d.name@, d.pattern@.len(), d.height as nat));
            }
            return Err(e);
        }
        let mut i: usize = 0;
        while i < h
            invariant
                h == data.pattern@.len(),
                h == data.height,
                d == data,
                i <= h,
                forall|j: int| 0 <= j < i ==> byte_len(#[trigger] data.pattern@[j]) == data.width,
            decreases h - i,
        {
            let len = data.pattern[i].as_str().len();
            if len != data.width {
                let mut e = prefab_message(&data.name, "': row ");
                push_decimal_usize(&mut e, i);
                e.append(" has ");
                push_decimal_usize(&mut e, len);
                e.append(" chars but width is ");
                push_decimal_usize(&mut e, data.width);
                proof {
                    assert(byte_len(data.pattern@[i as int]) != data.width);
                    assert(0 <= i < h && byte_len(d.pattern@[i as int]) != d.width && forall|j: int|
                        0 <= j < i ==> byte_len(#[trigger] d.pattern@[j]) == d.width);
                    let k = first_bad_row(d.pattern@, d.width)->0;
                    assert(0 <= k < h && byte_len(d.pattern@[k]) != d.width);
                    assert(forall|j: int| 0 <= j < k ==> byte_len(#[trigger] d.pattern@[j]) == d.width);
                    if k < i {
                    } else if k > i {
                        assert(byte_len(d.pattern@[i as int]) == d.width);
                    }
                    assert(e@ =~= width_error(d.name@, i as nat, len as nat, d.width as nat));
                }
                return Err(e);
            }
            i = i + 1;
        }
        let ghost chars = flat_chars(data.pattern@);
        proof {
            if first_bad_row(d.pattern@, d.width) is Some {
                let k = first_bad_row(d.pattern@, d.width)->0;
                assert(byte_len(d.pattern@[k]) == d.width);
            }
        }
        let mut cells: Vec<PrefabCell> = Vec::new();
        let mut r: usize = 0;
        proof {
            assert(data.pattern@.subrange(0, 0) =~= Seq::<String>::empty());
        }
        while r < h
            invariant
                h == data.pattern@.len(),
                h == data.height,
                d == data,
                chars == flat_chars(data.pattern@),
                first_bad_row(d.pattern@, d.width) is None,
                r <= h,
                forall|j: int| 0 <= j < h ==> byte_len(#[trigger] data.pattern@[j]) == data.width,
                cells@ == cells_for(flat_chars(data.pattern@.subrange(0, r as int)), data.legend@),
                forall|j: int|
                    0 <= j < flat_chars(data.pattern@.subrange(0, r as int)).len() ==> legend_slot(
                        data.legend@,
                        #[trigger] flat_chars(data.pattern@.subrange(0, r as int))[j],
                    ) is Some,
            decreases h - r,
        {
            let row = data.pattern[r].as_str();
            let n = row.unicode_len();
            let ghost before = flat_chars(data.pattern@.subrange(0, r as int));
            let mut k: usize = 0;
            while k < n
                invariant
                    n == row@.len(),
                    row@ == data.pattern@[r as int]@,
                    d == data,
                    chars == flat_chars(data.pattern@),
                    h == data.height,
                    first_bad_row(d.pattern@, d.width) is None,
                    r < h,
                    h == data.pattern@.len(),
                    k <= n,
                    before == flat_chars(data.pattern@.subrange(0, r as int)),
                    forall|j: int| 0 <= j < before.len() ==> legend_slot(data.legend@, #[trigger] before[j]) is Some,
                    cells@ == cells_for(before + row@.subrange(0, k as int), data.legend@),
                    forall|j: int| 0 <= j < k ==> legend_slot(data.legend@, #[trigger] row@[j]) is Some,
                decreases n - k,
            {
                let c = row.get_char(k);
                proof {
                    lemma_legend_slot_in_range(data.legend@, c);
                }
                match find_legend(&data.legend, c) {
                    Some(li) => {
                        let e = &data.legend[li].1;
                        let cell = PrefabCell {
                            tile: e.tile.clone(),
                            marker: clone_opt(&e.marker),
                            mask: clone_opt(&e.mask),
                        };
                        cells.push(cell);
                        proof {
                            assert(before + row@.subrange(0, k + 1) =~= (before + row@.subrange(0, k as int)).push(c));
                            assert(cells@ =~= cells_for(before + row@.subrange(0, k + 1), data.legend@));
                        }
                        k = k + 1;
                    },
                    None => {
                        let mut e = prefab_message(&data.name, "': character '");
                        push_char(&mut e, c);
                        e.append("' not found in legend");
                        proof {
                            lemma_flat_chars_rest(d.pattern@, r as int);
                            let pos = before.len() + k;
                            assert(chars[pos] == c) by {
                                lemma_flat_chars_prefix(d.pattern@, r as int, k as int);
                            }
                            let m = first_missing(chars, d.legend@)->0;
                            assert(legend_slot(d.legend@, chars[pos]) is None);
                            assert(0 <= m < chars.len() && legend_slot(d.legend@, chars[m]) is None);
                            assert(forall|j: int| 0 <= j < m ==> legend_slot(d.legend@, #[trigger] chars[j]) is Some);
                            if m < pos {
                                lemma_flat_chars_prefix(d.pattern@, r as int, k as int);
                                if m < before.len() {
                                    assert(chars[m] == before[m]);
                                } else {
                                    assert(chars[m] == row@[m - before.len()]);
                                }
                            } else if m > pos {
                            }
                            assert(e@ =~= legend_missing_error(d.name@, c));
                        }
                        return Err(e);
                    },
                }
            }
            proof {
                lemma_flat_chars_push(data.pattern@, r as int);
                assert(row@.subrange(0, n as int) =~= row@);
            }
            r = r + 1;
        }
        proof {
            assert(data.pattern@.subrange(0, h as int) =~= data.pattern@);
        }
        let PrefabData { name, width, height, pattern, legend, weight_bits, tags, faction, metadata } = data;
        Ok(Prefab { name, width, height, cells, weight_bits, tags, faction, metadata })
    }
}

/// The characters of the first `r` rows, then the first `k` characters of
/// row `r`, begin the pattern's characters.
proof fn lemma_flat_chars_prefix(rows: Seq<String>, r: int, k: int)
    requires
        0 <= r < rows.len(),
        0 <= k < rows[r]@.len(),
    ensures
        flat_chars(rows).len() > flat_chars(rows.subrange(0, r)).len() + k,
        forall|j: int| 0 <= j < flat_chars(rows.subrange(0, r)).len() ==> flat_chars(rows)[j] == flat_chars(rows.subrange(0, r))[j],
        flat_chars(rows)[flat_chars(rows.subrange(0, r)).len() + k] == rows[r]@[k],
        forall|j: int| 0 <= j <= k ==> flat_chars(rows)[flat_chars(rows.subrange(0, r)).len() + j] == rows[r]@[j],
{
    lemma_flat_chars_rest(rows, r);
}

/// The pattern's characters are those of the first `r` rows, then row `r`'s,
/// then the rest.
proof fn lemma_flat_chars_rest(rows: Seq<String>, r: int)
    requires
        0 <= r < rows.len(),
    ensures
        flat_chars(rows) == flat_chars(rows.subrange(0, r)) + rows[r]@ + flat_chars(rows.subrange(r + 1, rows.len() as int)),
    decreases rows.len(),
{
    if r == rows.len() - 1 {
        assert(rows.drop_last() =~= rows.subrange(0, r));
        assert(rows.subrange(r + 1, rows.len() as int) =~= Seq::<String>::empty());
        assert(flat_chars(rows) =~= flat_chars(rows.subrange(0, r)) + rows[r]@ + flat_chars(rows.subrange(r + 1, rows.len() as int)));
    } else {
        let dl = rows.drop_last();
        lemma_flat_chars_rest(dl, r);
        assert(dl.subrange(0, r) =~= rows.subrange(0, r));
        assert(dl[r] == rows[r]);
        let tail = rows.subrange(r + 1, rows.len() as int);
        assert(tail.drop_last() =~= dl.subrange(r + 1, dl.len() as int));
        assert(tail.last() == rows.last());
        assert(flat_chars(tail) == flat_chars(tail.drop_last()) + tail.last()@);
        assert(flat_chars(rows) =~= flat_chars(rows.subrange(0, r)) + rows[r]@ + flat_chars(tail));
    }
}

} // verus!
