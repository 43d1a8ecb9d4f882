//! Environmental props: purely visual floor replacements scattered over a
//! generated map, sometimes in small clusters, away from the spawn point.

use vstd::prelude::*;
use rand_chacha::ChaCha8Rng;
use crate::map::{TileMap, Tile, cell_index, lemma_set_tile_frame, is_floor_named};
use crate::item::{lists, contains_str};
use crate::rng::{gen_range_u32, gen_range_incl_usize};
use crate::layered::CHANCE_SCALE;

verus! {

/// A prop: the floor it becomes, the biomes it belongs to (all when none are
/// named), the floors it may replace, its density and cluster chance (as
/// millionths) and the least and greatest size of a cluster.
#[derive(Debug)]
pub struct PropDef {
    pub id: String,
    pub biomes: Option<Vec<String>>,
    pub place_on: Vec<String>,
    pub density: u32,
    pub cluster_chance: u32,
    pub cluster_size: (usize, usize),
}

/// Props are not placed this close to the spawn point along both axes.
pub const SPAWN_EXCLUSION: i32 = 5;

/// The prop belongs to the biome.
pub open spec fn eligible(p: PropDef, biome: Seq<char>) -> bool {
    match p.biomes {
        Some(bs) => lists(bs@, biome),
        None => true,
    }
}

/// The chances and cluster sizes of a prop can be drawn from.
pub open spec fn prop_ok(p: PropDef) -> bool {
    p.density <= CHANCE_SCALE && p.cluster_chance <= CHANCE_SCALE && p.cluster_size.0 <= p.cluster_size.1
}

/// The tile is a floor that some prop of the biome may replace.
pub open spec fn placeable(props: Seq<PropDef>, biome: Seq<char>, t: Tile) -> bool {
    exists|k: int| 0 <= k < props.len() && eligible(#[trigger] props[k], biome)
        && (t matches Tile::Floor { id } && lists(props[k].place_on@, id@))
}

/// The tile is the floor of some prop of the biome.
pub open spec fn prop_floor(props: Seq<PropDef>, biome: Seq<char>, t: Tile) -> bool {
    exists|k: int| 0 <= k < props.len() && eligible(#[trigger] props[k], biome)
        && (t matches Tile::Floor { id } && id@ == props[k].id@)
}

/// A tile after dressing: as it was, or, where a prop of the biome could
/// replace it, that of a prop of the biome.
pub open spec fn dressed(props: Seq<PropDef>, biome: Seq<char>, before: Tile, after: Tile) -> bool {
    after == before || (placeable(props, biome, before) && prop_floor(props, biome, after))
}

/// Every cell of the map is dressed from the earlier map.
pub open spec fn dressed_map(props: Seq<PropDef>, biome: Seq<char>, m0: TileMap, m: TileMap) -> bool {
    &&& m.wf()
    &&& m.width == m0.width
    &&& m.height == m0.height
    &&& forall|x: int, y: int| #![trigger m.tile_at(x, y)] m0.in_bounds_spec(x, y) ==> dressed(
        props,
        biome,
        m0.tile_at(x, y),
        m.tile_at(x, y),
    )
}

/// A draw that comes out true with the given chance in millionths.
fn chance(rng: &mut ChaCha8Rng, p: u32) -> (b: bool)
    ensures
        p == 0 ==> !b,
        p >= CHANCE_SCALE ==> b,
{
    gen_range_u32(rng, 0, CHANCE_SCALE) < p
}

/// Turn the floor at `(x, y)` into prop `k`'s floor, which may replace it.
fn place_prop(m: &mut TileMap, x: usize, y: usize, props: &Vec<PropDef>, k: usize, Ghost(biome): Ghost<Seq<char>>, Ghost(m0): Ghost<TileMap>)
    requires
        dressed_map(props@, biome, m0, *old(m)),
        x < old(m).width,
        y < old(m).height,
        k < props@.len(),
        eligible(props@[k as int], biome),
        old(m).tile_at(x as int, y as int) matches Tile::Floor { id } && lists(props@[k as int].place_on@, id@),
    ensures
        dressed_map(props@, biome, m0, *final(m)),
        is_floor_named(final(m).tile_at(x as int, y as int), props@[k as int].id@),
        forall|a: int, b: int| #![trigger final(m).tile_at(a, b)] old(m).in_bounds_spec(a, b) && (a != x || b != y) ==> final(m).tile_at(a, b)
            == old(m).tile_at(a, b),
{
    let ghost m1 = *m;
    let t = Tile::Floor { id: props[k].id.clone() };
    m.set_tile(x, y, t);
    proof {
        lemma_set_tile_frame(&m1, m, x as int, y as int, t);
        assert forall|a: int, b: int| #![trigger m.tile_at(a, b)] m0.in_bounds_spec(a, b) implies dressed(
            props@,
            biome,
            m0.tile_at(a, b),
            m.tile_at(a, b),
        ) by {
            if a == x && b == y {
                assert(eligible(props@[k as int], biome));
                assert(prop_floor(props@, biome, m.tile_at(a, b)));
                if m1.tile_at(a, b) == m0.tile_at(a, b) {
                    assert(placeable(props@, biome, m0.tile_at(a, b)));
                } else {
                    assert(dressed(props@, biome, m0.tile_at(a, b), m1.tile_at(a, b)));
                }
            } else {
                assert(m.tile_at(a, b) == m1.tile_at(a, b));
            }
        }
    }
}

/// A cell of the 7 by 7 square around `(cx, cy)` either keeps its tile or
/// was a floor that prop `k` may replace and now holds prop `k`'s floor.
pub open spec fn cluster_cell(props: Seq<PropDef>, k: int, cx: int, cy: int, x: int, y: int, before: Tile, after: Tile) -> bool {
    after == before || ({
        &&& cx - 3 <= x <= cx + 3
        &&& cy - 3 <= y <= cy + 3
        &&& before matches Tile::Floor { id } && lists(props[k].place_on@, id@)
        &&& is_floor_named(after, props[k].id@)
    })
}

/// Spread up to `count` more of prop `k` over the replaceable floors in the
/// rings around `(cx, cy)`, each with an even chance: only cells of the
/// square three cells around change, each to prop `k`'s floor from a floor
/// it may replace, and nothing changes when `count` is zero.
fn place_cluster(m: &mut TileMap, cx: usize, cy: usize, props: &Vec<PropDef>, k: usize, count: usize, rng: &mut ChaCha8Rng, Ghost(biome): Ghost<Seq<char>>, Ghost(m0): Ghost<TileMap>)
    requires
        dressed_map(props@, biome, m0, *old(m)),
        cx < old(m).width,
        cy < old(m).height,
        k < props@.len(),
        eligible(props@[k as int], biome),
    ensures
        dressed_map(props@, biome, m0, *final(m)),
        forall|a: int, b: int| #![trigger final(m).tile_at(a, b)] old(m).in_bounds_spec(a, b) ==> cluster_cell(
            props@,
            k as int,
            cx as int,
            cy as int,
            a,
            b,
            old(m).tile_at(a, b),
            final(m).tile_at(a, b),
        ),
        count == 0 ==> *final(m) == *old(m),
{
    let ghost me = *m;
    let w = m.width;
    let h = m.height;
    let mut placed: usize = 0;
    let mut r: i32 = 1;
    while r <= 3
        invariant
            forall|a: int, b: int| #![trigger m.tile_at(a, b)] me.in_bounds_spec(a, b) ==> cluster_cell(
                props@, k as int, cx as int, cy as int, a, b, me.tile_at(a, b), m.tile_at(a, b)),
            placed == 0 ==> *m == me,
            placed <= count,
            me.width == w,
            me.height == h,
            dressed_map(props@, biome, m0, *m),
            m.width == w,
            m.height == h,
            cx < w,
            cy < h,
            k < props@.len(),
            eligible(props@[k as int], biome),
            1 <= r <= 4,
        decreases 4 - r,
    {
        if placed >= count {
            break;
        }
        let mut dy: i32 = -r;
        while dy <= r
            invariant
                forall|a: int, b: int| #![trigger m.tile_at(a, b)] me.in_bounds_spec(a, b) ==> cluster_cell(
                    props@, k as int, cx as int, cy as int, a, b, me.tile_at(a, b), m.tile_at(a, b)),
                placed == 0 ==> *m == me,
                placed <= count,
                me.width == w,
                me.height == h,
                dressed_map(props@, biome, m0, *m),
                m.width == w,
                m.height == h,
                cx < w,
                cy < h,
                k < props@.len(),
                eligible(props@[k as int], biome),
                1 <= r <= 3,
                -r <= dy <= r + 1,
            decreases r + 1 - dy,
        {
            let mut dx: i32 = -r;
            while dx <= r
                invariant
                    forall|a: int, b: int| #![trigger m.tile_at(a, b)] me.in_bounds_spec(a, b) ==> cluster_cell(
                        props@, k as int, cx as int, cy as int, a, b, me.tile_at(a, b), m.tile_at(a, b)),
                    placed == 0 ==> *m == me,
                    placed <= count,
                    me.width == w,
                    me.height == h,
                    dressed_map(props@, biome, m0, *m),
                    m.width == w,
                    m.height == h,
                    cx < w,
                    cy < h,
                    k < props@.len(),
                    eligible(props@[k as int], biome),
                    1 <= r <= 3,
                    -r <= dy <= r,
                    -r <= dx <= r + 1,
                decreases r + 1 - dx,
            {
                if placed >= count {
                    break;
                }
                let nx = cx as i64 + dx as i64;
                let ny = cy as i64 + dy as i64;
                if nx >= 0 && ny >= 0 && (nx as usize) < w && (ny as usize) < h {
                    let fits = match m.get_tile(nx as i32, ny as i32) {
                        Tile::Floor { id } => contains_str(&props[k].place_on, id),
                        _ => false,
                    };
                    if fits && chance(rng, 500_000) {
                        let ghost mp = *m;
                        place_prop(m, nx as usize, ny as usize, props, k, Ghost(biome), Ghost(m0));
                        proof {
                            assert forall|a: int, b: int| #![trigger m.tile_at(a, b)] me.in_bounds_spec(a, b) implies cluster_cell(
                                props@, k as int, cx as int, cy as int, a, b, me.tile_at(a, b), m.tile_at(a, b)) by {
                                assert(cluster_cell(props@, k as int, cx as int, cy as int, a, b, me.tile_at(a, b), mp.tile_at(a, b)));
                                if a == nx && b == ny {
                                    assert(mp.in_bounds_spec(a, b));
                                }
                            }
                        }
                        placed = placed + 1;
                    }
                }
                dx = dx + 1;
            }
            dy = dy + 1;
        }
        r = r + 1;
    }
}

/// Some entry of the list is `j`.
pub open spec fn holds_index(ids: Seq<usize>, j: int) -> bool {
    exists|q: int| 0 <= q < ids.len() && ids[q] as int == j
}

/// The cell lies outside the spawn exclusion around `spawn`.
pub open spec fn outside_spawn(spawn: (i32, i32), x: int, y: int) -> bool {
    !(abs_i(x - spawn.0) < SPAWN_EXCLUSION && abs_i(y - spawn.1) < SPAWN_EXCLUSION)
}

/// The absolute value.
pub open spec fn abs_i(v: int) -> int {
    if v < 0 { -v } else { v }
}

/// The tile is a floor that some prop of the biome, drawn with certainty,
/// may replace.
pub open spec fn surely_dressed(props: Seq<PropDef>, biome: Seq<char>, t: Tile) -> bool {
    exists|k: int| 0 <= k < props.len() && eligible(#[trigger] props[k], biome) && props[k].density >= CHANCE_SCALE
        && (t matches Tile::Floor { id } && lists(props[k].place_on@, id@))
}

/// A change that leaves each tile as it was or makes it the floor of an
/// eligible prop keeps every prop floor a prop floor.
proof fn lemma_keeps_prop_floors(props: Seq<PropDef>, biome: Seq<char>, m1: TileMap, m2: TileMap, k: int)
    requires
        0 <= k < props.len(),
        eligible(props[k], biome),
        forall|a: int, b: int| #![trigger m2.tile_at(a, b)] m1.in_bounds_spec(a, b) ==> m2.tile_at(a, b) == m1.tile_at(a, b)
            || is_floor_named(m2.tile_at(a, b), props[k].id@),
    ensures
        forall|a: int, b: int| #![trigger m2.tile_at(a, b)] m1.in_bounds_spec(a, b) && prop_floor(props, biome, m1.tile_at(a, b))
            ==> prop_floor(props, biome, m2.tile_at(a, b)),
{
    assert forall|a: int, b: int| #![trigger m2.tile_at(a, b)] m1.in_bounds_spec(a, b) && prop_floor(props, biome, m1.tile_at(a, b))
        implies prop_floor(props, biome, m2.tile_at(a, b)) by {
        if m2.tile_at(a, b) != m1.tile_at(a, b) {
            assert(eligible(props[k], biome));
        }
    }
}

/// Scatter the props of a biome over the map's floors. Each floor outside
/// the spawn exclusion takes the first prop that may replace it and passes
/// its density draw, and may then seed a cluster of that prop nearby. Which
/// floors are chosen is drawn from the random source; whatever is drawn, a
/// tile changes only where a prop of the biome could replace it, and becomes
/// the floor of a prop of the biome. With no props for the biome the map is
/// left as it is.
pub fn place_environmental_props(m: &mut TileMap, props: &Vec<PropDef>, biome: &str, spawn_pos: (i32, i32), rng: &mut ChaCha8Rng)
    requires
        old(m).wf(),
        forall|k: int| 0 <= k < props@.len() ==> prop_ok(#[trigger] props@[k]),
    ensures
        dressed_map(props@, biome@, *old(m), *final(m)),
        (forall|k: int| 0 <= k < props@.len() ==> !eligible(#[trigger] props@[k], biome@)) ==> final(m).tiles@ == old(m).tiles@,
        forall|x: int, y: int| #![trigger final(m).tile_at(x, y)] old(m).in_bounds_spec(x, y) && outside_spawn(spawn_pos, x, y)
            && surely_dressed(props@, biome@, old(m).tile_at(x, y)) ==> prop_floor(props@, biome@, final(m).tile_at(x, y)),
{
    let ghost m0 = *m;
    let biome_s = biome.to_owned();
    let mut eligible_ids: Vec<usize> = Vec::new();
    let mut k: usize = 0;
    while k < props.len()
        invariant
            biome_s@ == biome@,
            k <= props@.len(),
            forall|j: int| 0 <= j < eligible_ids@.len() ==> #[trigger] eligible_ids@[j] < props@.len()
                && eligible(props@[eligible_ids@[j] as int], biome@),
            eligible_ids@.len() > 0 ==> exists|j: int| 0 <= j < props@.len() && eligible(#[trigger] props@[j], biome@),
            forall|j: int| 0 <= j < k && eligible(#[trigger] props@[j], biome@) ==> holds_index(eligible_ids@, j),
        decreases props@.len() - k,
    {
        let fits = match &props[k].biomes {
            Some(bs) => contains_str(bs, &biome_s),
            None => true,
        };
        if fits {
            let ghost e0 = eligible_ids@;
            eligible_ids.push(k);
            proof {
                assert forall|j: int| 0 <= j < k + 1 && eligible(#[trigger] props@[j], biome@) implies holds_index(eligible_ids@, j) by {
                    if j < k {
                        let q = choose|q: int| 0 <= q < e0.len() && e0[q] as int == j;
                        assert(eligible_ids@[q] == e0[q]);
                    } else {
                        assert(eligible_ids@[e0.len() as int] == k);
                    }
                }
            }
        }
        k = k + 1;
    }
    if eligible_ids.len() == 0 {
        proof {
            assert forall|x: int, y: int| #![trigger m.tile_at(x, y)] m0.in_bounds_spec(x, y) && outside_spawn(spawn_pos, x, y)
                && surely_dressed(props@, biome@, m0.tile_at(x, y)) implies prop_floor(props@, biome@, m.tile_at(x, y)) by {
                let j = choose|j: int| 0 <= j < props@.len() && eligible(#[trigger] props@[j], biome@) && props@[j].density >= CHANCE_SCALE
                    && (m0.tile_at(x, y) matches Tile::Floor { id } && lists(props@[j].place_on@, id@));
                assert(holds_index(eligible_ids@, j));
            }
        }
        return;
    }
    let w = m.width;
    let h = m.height;
    let mut y: usize = 0;
    while y < h
        invariant
            dressed_map(props@, biome@, m0, *m),
            m0.wf(),
            m.width == w,
            m.height == h,
            y <= h,
            forall|k: int| 0 <= k < props@.len() ==> prop_ok(#[trigger] props@[k]),
            forall|j: int| 0 <= j < eligible_ids@.len() ==> #[trigger] eligible_ids@[j] < props@.len()
                && eligible(props@[eligible_ids@[j] as int], biome@),
            forall|j: int| 0 <= j < props@.len() && eligible(#[trigger] props@[j], biome@) ==> holds_index(eligible_ids@, j),
            forall|a: int, b: int| #![trigger m.tile_at(a, b)] m0.in_bounds_spec(a, b) && b < y && outside_spawn(spawn_pos, a, b)
                && surely_dressed(props@, biome@, m0.tile_at(a, b)) ==> prop_floor(props@, biome@, m.tile_at(a, b)),
        decreases h - y,
    {
        let mut x: usize = 0;
        while x < w
            invariant
                dressed_map(props@, biome@, m0, *m),
                m0.wf(),
                m.width == w,
                m.height == h,
                y < h,
                x <= w,
                forall|k: int| 0 <= k < props@.len() ==> prop_ok(#[trigger] props@[k]),
                forall|j: int| 0 <= j < eligible_ids@.len() ==> #[trigger] eligible_ids@[j] < props@.len()
                    && eligible(props@[eligible_ids@[j] as int], biome@),
                forall|j: int| 0 <= j < props@.len() && eligible(#[trigger] props@[j], biome@) ==> holds_index(eligible_ids@, j),
                forall|a: int, b: int| #![trigger m.tile_at(a, b)] m0.in_bounds_spec(a, b) && (b < y || (b == y && a < x))
                    && outside_spawn(spawn_pos, a, b) && surely_dressed(props@, biome@, m0.tile_at(a, b)) ==> prop_floor(
                    props@,
                    biome@,
                    m.tile_at(a, b),
                ),
            decreases w - x,
        {
            let dx = x as i64 - spawn_pos.0 as i64;
            let dy = y as i64 - spawn_pos.1 as i64;
            let adx = if dx < 0 { -dx } else { dx };
            let ady = if dy < 0 { -dy } else { dy };
            if !(adx < SPAWN_EXCLUSION as i64 && ady < SPAWN_EXCLUSION as i64) {
                let floor_id: Option<String> = match m.get_tile(x as i32, y as i32) {
                    Tile::Floor { id } => Some(id.clone()),
                    _ => None,
                };
                if let Some(fid) = floor_id {
                    let mut e: usize = 0;
                    let mut done = false;
                    while e < eligible_ids.len() && !done
                        invariant
                            dressed_map(props@, biome@, m0, *m),
                            m0.wf(),
                            m.width == w,
                            m.height == h,
                            y < h,
                            x < w,
                            e <= eligible_ids@.len(),
                            !done ==> (m.tile_at(x as int, y as int) matches Tile::Floor { id } && id@ == fid@),
                            forall|k: int| 0 <= k < props@.len() ==> prop_ok(#[trigger] props@[k]),
                            forall|j: int| 0 <= j < eligible_ids@.len() ==> #[trigger] eligible_ids@[j] < props@.len()
                                && eligible(props@[eligible_ids@[j] as int], biome@),
                            forall|j: int| 0 <= j < props@.len() && eligible(#[trigger] props@[j], biome@) ==> holds_index(eligible_ids@, j),
                            forall|a: int, b: int| #![trigger m.tile_at(a, b)] m0.in_bounds_spec(a, b) && (b < y || (b == y && a < x))
                                && outside_spawn(spawn_pos, a, b) && surely_dressed(props@, biome@, m0.tile_at(a, b)) ==> prop_floor(
                                props@,
                                biome@,
                                m.tile_at(a, b),
                            ),
                            done ==> prop_floor(props@, biome@, m.tile_at(x as int, y as int)),
                            !done ==> forall|j: int| 0 <= j < e ==> !(lists(props@[#[trigger] eligible_ids@[j] as int].place_on@, fid@)
                                && props@[eligible_ids@[j] as int].density >= CHANCE_SCALE),
                        decreases eligible_ids@.len() - e,
                    {
                        let pk = eligible_ids[e];
                        proof {
                            assert(eligible_ids@[e as int] < props@.len());
                        }
                        if contains_str(&props[pk].place_on, &fid) && chance(rng, props[pk].density) {
                            proof {
                                assert(prop_ok(props@[pk as int]));
                            }
                            let ghost m1 = *m;
                            place_prop(m, x, y, props, pk, Ghost(biome@), Ghost(m0));
                            proof {
                                lemma_keeps_prop_floors(props@, biome@, m1, *m, pk as int);
                                assert(prop_floor(props@, biome@, m.tile_at(x as int, y as int)));
                            }
                            if props[pk].cluster_chance > 0 && chance(rng, props[pk].cluster_chance) {
                                let count = gen_range_incl_usize(rng, props[pk].cluster_size.0, props[pk].cluster_size.1);
                                let ghost m2 = *m;
                                place_cluster(m, x, y, props, pk, count, rng, Ghost(biome@), Ghost(m0));
                                proof {
                                    lemma_keeps_prop_floors(props@, biome@, m2, *m, pk as int);
                                    assert(m2.in_bounds_spec(x as int, y as int));
                                }
                            }
                            done = true;
                        }
                        e = e + 1;
                    }
                    proof {
                        if outside_spawn(spawn_pos, x as int, y as int) && surely_dressed(props@, biome@, m0.tile_at(x as int, y as int))
                            && !done && m.tile_at(x as int, y as int) == m0.tile_at(x as int, y as int) {
                            let k = choose|k: int| 0 <= k < props@.len() && eligible(#[trigger] props@[k], biome@) && props@[k].density
                                >= CHANCE_SCALE && (m0.tile_at(x as int, y as int) matches Tile::Floor { id } && lists(props@[k].place_on@, id@));
                            assert(holds_index(eligible_ids@, k));
                            let q = choose|q: int| 0 <= q < eligible_ids@.len() && eligible_ids@[q] as int == k;
                            assert(e == eligible_ids@.len());
                            assert(!(lists(props@[eligible_ids@[q] as int].place_on@, fid@) && props@[eligible_ids@[q] as int].density
                                >= CHANCE_SCALE));
                            assert(eligible_ids@[q] as int == k);
                            assert(lists(props@[k].place_on@, fid@));
                            assert(false);
                        }
                        if done {
                            assert(prop_floor(props@, biome@, m.tile_at(x as int, y as int)));
                        }
                        assert(m0.in_bounds_spec(x as int, y as int));
                        assert(dressed(props@, biome@, m0.tile_at(x as int, y as int), m.tile_at(x as int, y as int)));
                        assert(outside_spawn(spawn_pos, x as int, y as int) && surely_dressed(props@, biome@, m0.tile_at(x as int, y as int))
                            ==> prop_floor(props@, biome@, m.tile_at(x as int, y as int)));
                    }
                } else {
                    proof {
                        assert(m0.in_bounds_spec(x as int, y as int));
                        assert(dressed(props@, biome@, m0.tile_at(x as int, y as int), m.tile_at(x as int, y as int)));
                        assert(!(m.tile_at(x as int, y as int) is Floor));
                        assert(outside_spawn(spawn_pos, x as int, y as int) && surely_dressed(props@, biome@, m0.tile_at(x as int, y as int))
                            ==> prop_floor(props@, biome@, m.tile_at(x as int, y as int)));
                    }
                }
            } else {
                proof {
                    assert(adx == abs_i(x - spawn_pos.0) && ady == abs_i(y - spawn_pos.1));
                    assert(!outside_spawn(spawn_pos, x as int, y as int));
                }
            }
            proof {
                assert(m0.in_bounds_spec(x as int, y as int));
                assert(dressed(props@, biome@, m0.tile_at(x as int, y as int), m.tile_at(x as int, y as int)));
                assert(adx == abs_i(x - spawn_pos.0) && ady == abs_i(y - spawn_pos.1));
                assert forall|a: int, b: int| #![trigger m.tile_at(a, b)] m0.in_bounds_spec(a, b) && (b < y || (b == y && a < x + 1))
                    && outside_spawn(spawn_pos, a, b) && surely_dressed(props@, biome@, m0.tile_at(a, b)) implies prop_floor(
                    props@,
                    biome@,
                    m.tile_at(a, b),
                ) by {
                    if b == y && a == x {
                        if m.tile_at(a, b) == m0.tile_at(a, b) {
                            let k = choose|k: int| 0 <= k < props@.len() && eligible(#[trigger] props@[k], biome@) && props@[k].density
                                >= CHANCE_SCALE && (m0.tile_at(a, b) matches Tile::Floor { id } && lists(props@[k].place_on@, id@));
                        }
                    }
                }
            }
            x = x + 1;
        }
        y = y + 1;
    }
}

} // verus!
