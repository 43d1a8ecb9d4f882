//! Per-tile light levels over a standard map: adding up light sources, and
//! queries on a computed light map.

use vstd::prelude::*;
use crate::map::{MAP_WIDTH, MAP_HEIGHT, cell_index, lemma_cell_index_injective};

verus! {

/// A light at a position, with its reach and brightness.
#[derive(Clone, Debug)]
pub struct LightSource {
    pub x: i32,
    pub y: i32,
    pub radius: i32,
    pub intensity: u8,
}

/// The cell lies on a standard map.
pub open spec fn on_map(x: int, y: int) -> bool {
    0 <= x < MAP_WIDTH && 0 <= y < MAP_HEIGHT
}

/// The light level stored for a cell of a standard map, row by row.
pub open spec fn level_at(light_map: Seq<u8>, x: int, y: int) -> u8 {
    light_map[y * MAP_WIDTH + x]
}

fn cell_of(x: i32, y: i32) -> (i: usize)
    requires
        on_map(x as int, y as int),
    ensures
        i == y * MAP_WIDTH + x,
        i < MAP_WIDTH * MAP_HEIGHT,
{
    assert(y * MAP_WIDTH + x < MAP_WIDTH * MAP_HEIGHT) by (nonlinear_arith)
        requires
            0 <= x < MAP_WIDTH,
            0 <= y < MAP_HEIGHT,
    ;
    (y as usize) * MAP_WIDTH + (x as usize)
}

/// Whether a cell on the map is lit enough to see: brighter than
/// `threshold`; cells off the map are never lit.
pub fn is_lit(light_map: &Vec<u8>, x: i32, y: i32, threshold: u8) -> (b: bool)
    requires
        light_map@.len() >= MAP_WIDTH * MAP_HEIGHT,
    ensures
        b == (on_map(x as int, y as int) && level_at(light_map@, x as int, y as int) > threshold),
{
    if x < 0 || y < 0 || x >= MAP_WIDTH as i32 || y >= MAP_HEIGHT as i32 {
        return false;
    }
    let idx = cell_of(x, y);
    light_map[idx] > threshold
}

/// Whether a cell on the map is at least as bright as the glare threshold;
/// cells off the map have no glare.
pub fn has_glare(light_map: &Vec<u8>, x: i32, y: i32, glare_threshold: u8) -> (b: bool)
    requires
        light_map@.len() >= MAP_WIDTH * MAP_HEIGHT,
    ensures
        b == (on_map(x as int, y as int) && level_at(light_map@, x as int, y as int) >= glare_threshold),
{
    if x < 0 || y < 0 || x >= MAP_WIDTH as i32 || y >= MAP_HEIGHT as i32 {
        return false;
    }
    let idx = cell_of(x, y);
    light_map[idx] >= glare_threshold
}

/// The light level of a cell on the map; 0 off the map.
pub fn get_light_level(light_map: &Vec<u8>, x: i32, y: i32) -> (l: u8)
    requires
        light_map@.len() >= MAP_WIDTH * MAP_HEIGHT,
    ensures
        l == (if on_map(x as int, y as int) { level_at(light_map@, x as int, y as int) } else { 0 }),
{
    if x < 0 || y < 0 || x >= MAP_WIDTH as i32 || y >= MAP_HEIGHT as i32 {
        return 0;
    }
    let idx = cell_of(x, y);
    light_map[idx]
}

/// The offset lies within `r` of the centre (a disc of radius `r`).
pub open spec fn offset_in(r: int, dx: int, dy: int) -> bool {
    -r <= dx <= r && -r <= dy <= r && dx * dx + dy * dy <= r * r
}

/// Where an offset's brightness is kept in a source's falloff table: row by
/// row over the square of side `2r + 1`.
pub open spec fn table_index(r: int, dx: int, dy: int) -> int {
    (dy + r) * (2 * r + 1) + (dx + r)
}

/// The light a source adds to a cell: the table's entry for the cell's offset
/// inside the source's disc, else nothing.
pub open spec fn contribution(s: LightSource, table: Seq<u8>, x: int, y: int) -> int {
    let dx = x - s.x;
    let dy = y - s.y;
    if offset_in(s.radius as int, dx, dy) {
        table[table_index(s.radius as int, dx, dy)] as int
    } else {
        0
    }
}

/// The light all sources add to a cell.
pub open spec fn total_light(srcs: Seq<LightSource>, tables: Seq<Vec<u8>>, x: int, y: int) -> int
    decreases srcs.len(),
{
    if srcs.len() == 0 || tables.len() == 0 {
        0
    } else {
        total_light(srcs.drop_last(), tables.drop_last(), x, y) + contribution(srcs.last(), tables.last()@, x, y)
    }
}

/// A level capped at 255.
pub open spec fn capped(v: int) -> int {
    if v > 255 { 255 } else { v }
}

/// Each source has a radius whose square fits in `i32` and, unless the
/// radius is negative (a source that lights nothing), a table with one entry
/// per offset of its square.
pub open spec fn tables_fit(srcs: Seq<LightSource>, tables: Seq<Vec<u8>>) -> bool {
    &&& tables.len() == srcs.len()
    &&& forall|k: int| 0 <= k < srcs.len() ==> (#[trigger] srcs[k]).radius <= 46340 && (srcs[k].radius < 0 || tables[k]@.len() == (2
        * srcs[k].radius + 1) * (2 * srcs[k].radius + 1))
}

proof fn lemma_table_index(r: int, dx: int, dy: int)
    requires
        0 <= r,
        -r <= dx <= r,
        -r <= dy <= r,
    ensures
        0 <= table_index(r, dx, dy) < (2 * r + 1) * (2 * r + 1),
{
    assert(0 <= (dy + r) * (2 * r + 1) + (dx + r) < (2 * r + 1) * (2 * r + 1)) by (nonlinear_arith)
        requires
            0 <= r,
            -r <= dx <= r,
            -r <= dy <= r,
    ;
}

/// The level of a cell: ambient light plus what the sources add, capped at 255.
pub open spec fn lit_level(srcs: Seq<LightSource>, tables: Seq<Vec<u8>>, ambient: u8, x: int, y: int) -> int {
    capped(ambient + total_light(srcs, tables, x, y))
}

proof fn lemma_total_light_nonneg(srcs: Seq<LightSource>, tables: Seq<Vec<u8>>, x: int, y: int)
    ensures
        total_light(srcs, tables, x, y) >= 0,
    decreases srcs.len(),
{
    if srcs.len() > 0 && tables.len() > 0 {
        lemma_total_light_nonneg(srcs.drop_last(), tables.drop_last(), x, y);
    }
}

/// No cell is darker than the ambient light.
pub proof fn law_never_below_ambient(srcs: Seq<LightSource>, tables: Seq<Vec<u8>>, ambient: u8, x: int, y: int)
    ensures
        lit_level(srcs, tables, ambient, x, y) >= ambient,
{
    lemma_total_light_nonneg(srcs, tables, x, y);
}

/// A cell outside every source's disc has exactly the ambient light.
pub proof fn law_ambient_outside_discs(srcs: Seq<LightSource>, tables: Seq<Vec<u8>>, ambient: u8, x: int, y: int)
    requires
        forall|k: int| 0 <= k < srcs.len() ==> !offset_in((#[trigger] srcs[k]).radius as int, x - srcs[k].x, y - srcs[k].y),
    ensures
        lit_level(srcs, tables, ambient, x, y) == ambient,
    decreases srcs.len(),
{
    if srcs.len() > 0 && tables.len() > 0 {
        assert(srcs.drop_last().len() == srcs.len() - 1);
        assert forall|k: int| 0 <= k < srcs.drop_last().len() implies !offset_in(
            (#[trigger] srcs.drop_last()[k]).radius as int,
            x - srcs.drop_last()[k].x,
            y - srcs.drop_last()[k].y,
        ) by {
            assert(srcs.drop_last()[k] == srcs[k]);
        }
        law_ambient_outside_discs(srcs.drop_last(), tables.drop_last(), ambient, x, y);
        assert(!offset_in(srcs[srcs.len() - 1].radius as int, x - srcs[srcs.len() - 1].x, y - srcs[srcs.len() - 1].y));
    }
}

/// Adding a light source never darkens a cell.
pub proof fn law_more_sources_no_darker(
    srcs: Seq<LightSource>,
    tables: Seq<Vec<u8>>,
    s: LightSource,
    t: Vec<u8>,
    ambient: u8,
    x: int,
    y: int,
)
    requires
        tables.len() == srcs.len(),
    ensures
        lit_level(srcs.push(s), tables.push(t), ambient, x, y) >= lit_level(srcs, tables, ambient, x, y),
{
    assert(srcs.push(s).drop_last() =~= srcs);
    assert(tables.push(t).drop_last() =~= tables);
}

/// Light levels for every cell: the ambient level plus what every source adds
/// within its radius, capped at 255. A source's brightness at each offset of
/// its disc comes from its falloff table.
pub fn compute_lighting(sources: &[LightSource], falloffs: &[Vec<u8>], ambient: u8) -> (light: Vec<u8>)
    requires
        tables_fit(sources@, falloffs@),
    ensures
        light@.len() == MAP_WIDTH * MAP_HEIGHT,
        forall|x: int, y: int| on_map(x, y) ==> level_at(light@, x, y) as int == lit_level(sources@, falloffs@, ambient, x, y),
{
    let n = MAP_WIDTH * MAP_HEIGHT;
    let mut light: Vec<u8> = Vec::new();
    let mut i: usize = 0;
    while i < n
        invariant
            n == MAP_WIDTH * MAP_HEIGHT,
            i <= n,
            light@.len() == i,
            forall|k: int| 0 <= k < i ==> light@[k] == ambient,
        decreases n - i,
    {
        light.push(ambient);
        i = i + 1;
    }
    proof {
        assert forall|x: int, y: int| on_map(x, y) implies level_at(light@, x, y) as int == capped(
            ambient + total_light(sources@.subrange(0, 0), falloffs@.subrange(0, 0), x, y),
        ) by {
            assert(0 <= y * MAP_WIDTH + x < MAP_WIDTH * MAP_HEIGHT) by (nonlinear_arith)
                requires
                    0 <= x < MAP_WIDTH,
                    0 <= y < MAP_HEIGHT,
            ;
        }
    }
    let mut k: usize = 0;
    while k < sources.len()
        invariant
            tables_fit(sources@, falloffs@),
            k <= sources@.len(),
            light@.len() == MAP_WIDTH * MAP_HEIGHT,
            forall|x: int, y: int| on_map(x, y) ==> level_at(light@, x, y) as int == capped(
                ambient + total_light(sources@.subrange(0, k as int), falloffs@.subrange(0, k as int), x, y),
            ),
        decreases sources@.len() - k,
    {
        let src = &sources[k];
        let table = &falloffs[k];
        let r = src.radius;
        let ghost before = light@;
        let ghost base = |x: int, y: int| total_light(sources@.subrange(0, k as int), falloffs@.subrange(0, k as int), x, y);
        if r >= 0 {
        let mut dy: i32 = -r;
        while dy <= r
            invariant
                0 <= r <= 46340,
                r == src.radius,
                *src == sources@[k as int],
                table@ == falloffs@[k as int]@,
                table@.len() == (2 * r + 1) * (2 * r + 1),
                -r <= dy <= r + 1,
                light@.len() == MAP_WIDTH * MAP_HEIGHT,
                forall|x: int, y: int| on_map(x, y) ==> level_at(light@, x, y) as int == capped(
                    ambient + base(x, y) + if y - src.y < dy { contribution(*src, table@, x, y) } else { 0 },
                ),
            decreases r + 1 - dy,
        {
            let mut dx: i32 = -r;
            proof {
                assert forall|x: int, y: int| on_map(x, y) implies level_at(light@, x, y) as int == capped(
                    ambient + base(x, y) + if y - src.y < dy || (y - src.y == dy && x - src.x < dx) {
                        contribution(*src, table@, x, y)
                    } else {
                        0
                    },
                ) by {
                    assert(level_at(light@, x, y) as int == capped(
                        ambient + base(x, y) + if y - src.y < dy { contribution(*src, table@, x, y) } else { 0 },
                    ));
                    if y - src.y == dy && x - src.x < dx {
                        assert(!offset_in(r as int, x - src.x, y - src.y));
                        assert(contribution(*src, table@, x, y) == 0);
                    }
                }
            }
            while dx <= r
                invariant
                    0 <= r <= 46340,
                    r == src.radius,
                    *src == sources@[k as int],
                    table@ == falloffs@[k as int]@,
                    table@.len() == (2 * r + 1) * (2 * r + 1),
                    -r <= dy <= r,
                    -r <= dx <= r + 1,
                    light@.len() == MAP_WIDTH * MAP_HEIGHT,
                    forall|x: int, y: int| on_map(x, y) ==> level_at(light@, x, y) as int == capped(
                        ambient + base(x, y) + if y - src.y < dy || (y - src.y == dy && x - src.x < dx) {
                            contribution(*src, table@, x, y)
                        } else {
                            0
                        },
                    ),
                decreases r + 1 - dx,
            {
                let x = src.x as i64 + dx as i64;
                let y = src.y as i64 + dy as i64;
                proof {
                    assert(0 <= (dx as i64) * (dx as i64) <= 46341 * 46341) by (nonlinear_arith)
                        requires
                            -46341 <= dx <= 46341,
                    ;
                    assert(0 <= (dy as i64) * (dy as i64) <= 46341 * 46341) by (nonlinear_arith)
                        requires
                            -46341 <= dy <= 46341,
                    ;
                    assert(0 <= (r as i64) * (r as i64) <= 46341 * 46341) by (nonlinear_arith)
                        requires
                            0 <= r <= 46341,
                    ;
                }
                let d2 = (dx as i64) * (dx as i64) + (dy as i64) * (dy as i64);
                let r2 = (r as i64) * (r as i64);
                if x >= 0 && y >= 0 && x < MAP_WIDTH as i64 && y < MAP_HEIGHT as i64 && d2 <= r2 {
                    proof {
                        lemma_table_index(r as int, dx as int, dy as int);
                        assert(0 <= y * MAP_WIDTH + x < MAP_WIDTH * MAP_HEIGHT) by (nonlinear_arith)
                            requires
                                0 <= x < MAP_WIDTH,
                                0 <= y < MAP_HEIGHT,
                        ;
                    }
                    let idx = (y as usize) * MAP_WIDTH + (x as usize);
                    proof {
                        assert(0 <= (dy + r) * (2 * r + 1) <= 92683 * 92683) by (nonlinear_arith)
                            requires
                                0 <= dy + r <= 92682,
                                0 <= 2 * r + 1 <= 92683,
                        ;
                    }
                    let ti64 = ((dy + r) as u64) * ((2 * r + 1) as u64) + ((dx + r) as u64);
                    assert(ti64 == table_index(r as int, dx as int, dy as int));
                    let tl = table.len();
                    assert(ti64 < tl);
                    let ti = ti64 as usize;
                    let ghost l0 = light@;
                    let v = light[idx].saturating_add(table[ti]);
                    light.set(idx, v);
                    proof {
                        assert forall|a: int, b: int| on_map(a, b) implies level_at(light@, a, b) as int == capped(
                            ambient + base(a, b) + if b - src.y < dy || (b - src.y == dy && a - src.x < dx + 1) {
                                contribution(*src, table@, a, b)
                            } else {
                                0
                            },
                        ) by {
                            if a != x || b != y {
                                lemma_cell_index_injective(MAP_WIDTH as int, a, b, x as int, y as int);
                                assert(level_at(light@, a, b) == level_at(l0, a, b));
                            } else {
                                assert(d2 as int == (dx as int) * (dx as int) + (dy as int) * (dy as int));
                                assert(r2 as int == (r as int) * (r as int));
                                assert(offset_in(r as int, dx as int, dy as int));
                                assert(a - src.x == dx && b - src.y == dy);
                                assert(ti as int == table_index(r as int, dx as int, dy as int));
                                assert(contribution(*src, table@, a, b) == table@[ti as int] as int);
                            }
                        }
                    }
                } else {
                    proof {
                        assert forall|a: int, b: int| on_map(a, b) implies level_at(light@, a, b) as int == capped(
                            ambient + base(a, b) + if b - src.y < dy || (b - src.y == dy && a - src.x < dx + 1) {
                                contribution(*src, table@, a, b)
                            } else {
                                0
                            },
                        ) by {
                            if b - src.y == dy && a - src.x == dx {
                                assert(contribution(*src, table@, a, b) == 0);
                            }
                        }
                    }
                }
                dx = dx + 1;
            }
            proof {
                assert forall|x: int, y: int| on_map(x, y) implies level_at(light@, x, y) as int == capped(
                    ambient + base(x, y) + if y - src.y < dy + 1 { contribution(*src, table@, x, y) } else { 0 },
                ) by {
                    assert(level_at(light@, x, y) as int == capped(
                        ambient + base(x, y) + if y - src.y < dy || (y - src.y == dy && x - src.x < dx) {
                            contribution(*src, table@, x, y)
                        } else {
                            0
                        },
                    ));
                    if y - src.y == dy && x - src.x >= dx {
                        assert(!offset_in(r as int, x - src.x, y - src.y));
                        assert(contribution(*src, table@, x, y) == 0);
                    }
                }
            }
            dy = dy + 1;
        }
        }
        proof {
            let s1 = sources@.subrange(0, k + 1);
            let t1 = falloffs@.subrange(0, k + 1);
            assert(s1.drop_last() =~= sources@.subrange(0, k as int));
            assert(t1.drop_last() =~= falloffs@.subrange(0, k as int));
            assert forall|x: int, y: int| on_map(x, y) implies level_at(light@, x, y) as int == capped(
                ambient + total_light(s1, t1, x, y),
            ) by {
                if r < 0 || !(y - src.y < r + 1) {
                    assert(!offset_in(r as int, x - src.x, y - src.y));
                }
            }
        }
        k = k + 1;
    }
    proof {
        assert(sources@.subrange(0, sources@.len() as int) =~= sources@);
        assert(falloffs@.subrange(0, falloffs@.len() as int) =~= falloffs@);
    }
    light
}

} // verus!
