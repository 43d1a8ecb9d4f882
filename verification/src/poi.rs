//! Points of interest on world tiles: the markers injected for each kind,
//! and the floor positions they are drawn from.

use vstd::prelude::*;
use rand_chacha::ChaCha8Rng;
use crate::map::{TileMap, Tile, MAP_WIDTH, MAP_HEIGHT, is_floor_named, is_wall_named, cell_index, lemma_cell_index_bounds, lemma_cell_index_injective};
use crate::rng::gen_range_incl_usize;
use crate::rng::{gen_range_incl_i32, gen_range_usize, choose_position};

verus! {

/// What stands on a world tile.
#[derive(Debug, Clone, Copy, PartialEq, Eq, Structural)]
pub enum POI {
    /// Open land with no point of interest.
    Plain,
    Town,
    Dungeon,
    Landmark,
    Shrine,
}

/// The lie of the land on a world tile.
#[derive(Debug, Clone, Copy, PartialEq, Eq, Structural)]
pub enum Terrain {
    Canyon,
    Mesa,
    Hills,
    Dunes,
    Flat,
}

/// A feature marker placed on a map.
#[derive(Debug, Clone)]
pub struct MapFeature {
    pub x: i32,
    pub y: i32,
    pub feature_id: String,
    pub source: Option<String>,
    /// Key/value annotations; no key appears twice (`metadata_well_formed`).
    pub metadata: Vec<(String, String)>,
}

/// No key occurs twice among a feature's annotations.
pub open spec fn metadata_well_formed(f: MapFeature) -> bool {
    forall|a: int, b: int|
        0 <= a < b < f.metadata@.len() ==> (#[trigger] f.metadata@[a]).0@ != (#[trigger] f.metadata@[b]).0@
}

/// The floor cells of the first `n` tiles, in storage order, as positions on
/// a standard-width map.
pub open spec fn floor_cells(tiles: Seq<Tile>, n: int) -> Seq<(i32, i32)>
    decreases n,
{
    if n <= 0 {
        Seq::empty()
    } else {
        let rest = floor_cells(tiles, n - 1);
        if tiles[n - 1] is Floor {
            rest.push((((n - 1) % MAP_WIDTH as int) as i32, ((n - 1) / MAP_WIDTH as int) as i32))
        } else {
            rest
        }
    }
}

/// The positions of the map's floor tiles, in storage order.
pub fn collect_floor_positions(m: &TileMap) -> (ps: Vec<(i32, i32)>)
    requires
        m.tiles@.len() <= i32::MAX,
    ensures
        ps@ == floor_cells(m.tiles@, m.tiles@.len() as int),
{
    let mut ps: Vec<(i32, i32)> = Vec::new();
    let mut i: usize = 0;
    while i < m.tiles.len()
        invariant
            i <= m.tiles@.len(),
            m.tiles@.len() <= i32::MAX,
            ps@ == floor_cells(m.tiles@, i as int),
        decreases m.tiles@.len() - i,
    {
        if matches!(m.tiles[i], Tile::Floor { .. }) {
            let x = (i % MAP_WIDTH) as i32;
            let y = (i / MAP_WIDTH) as i32;
            ps.push((x, y));
        }
        i = i + 1;
    }
    ps
}

/// Take a drawn position out of the list, moving the last into its place;
/// `None` when the list is empty.
pub fn take_random_position(positions: &mut Vec<(i32, i32)>, rng: &mut ChaCha8Rng) -> (r: Option<(i32, i32)>)
    ensures
        old(positions)@.len() == 0 ==> r is None && final(positions)@ == old(positions)@,
        old(positions)@.len() > 0 ==> exists|i: int| 0 <= i < old(positions)@.len() && r == Some(old(positions)@[i])
            && final(positions)@ == old(positions)@.update(i, old(positions)@.last()).drop_last(),
{
    if positions.len() == 0 {
        return None;
    }
    let idx = gen_range_usize(rng, 0, positions.len());
    let p = positions.swap_remove(idx);
    proof {
        assert(positions@ =~= old(positions)@.update(idx as int, old(positions)@.last()).drop_last());
    }
    Some(p)
}

/// A marker feature injected for a point of interest.
pub open spec fn poi_marker(f: MapFeature, id: Seq<char>) -> bool {
    &&& f.feature_id@ == id
    &&& f.source matches Some(s) && s@ == "poi_injection"@
    &&& f.metadata@.len() == 0
}

/// The markers injected for points of interest keep the annotation invariant.
pub proof fn lemma_marker_metadata_well_formed(f: MapFeature, id: Seq<char>)
    requires
        poi_marker(f, id),
    ensures
        metadata_well_formed(f),
{
}

/// Squared distance of a position from the map's centre.
pub open spec fn center_dist(p: (i32, i32)) -> int {
    let dx = p.0 - (MAP_WIDTH / 2) as int;
    let dy = p.1 - (MAP_HEIGHT / 2) as int;
    dx * dx + dy * dy
}

/// A position close enough to the map that its squared distance from the
/// centre fits in an `i32`.
pub open spec fn near_map(p: (i32, i32)) -> bool {
    -30000 <= p.0 <= 30000 && -30000 <= p.1 <= 30000
}

/// Every position is close enough to the map for its squared centre distance
/// to fit in an `i32`.
pub open spec fn on_standard_map(ps: Seq<(i32, i32)>) -> bool {
    forall|i: int| 0 <= i < ps.len() ==> near_map(#[trigger] ps[i])
}

/// Index of the first position closest to the centre.
pub open spec fn is_first_nearest(ps: Seq<(i32, i32)>, i: int) -> bool {
    &&& 0 <= i < ps.len()
    &&& forall|j: int| 0 <= j < ps.len() ==> center_dist(ps[i]) <= center_dist(#[trigger] ps[j])
    &&& forall|j: int| 0 <= j < i ==> center_dist(ps[i]) < center_dist(#[trigger] ps[j])
}

/// Index of the last position farthest from the centre.
pub open spec fn is_last_farthest(ps: Seq<(i32, i32)>, i: int) -> bool {
    &&& 0 <= i < ps.len()
    &&& forall|j: int| 0 <= j < ps.len() ==> center_dist(ps[i]) >= center_dist(#[trigger] ps[j])
    &&& forall|j: int| i < j < ps.len() ==> center_dist(ps[i]) > center_dist(#[trigger] ps[j])
}

fn center_dist_exec(p: (i32, i32)) -> (d: i32)
    requires
        near_map(p),
    ensures
        d == center_dist(p),
{
    let cx = (MAP_WIDTH / 2) as i32;
    let cy = (MAP_HEIGHT / 2) as i32;
    assert(cx == 125 && cy == 55);
    let dx = p.0 - cx;
    let dy = p.1 - cy;
    proof {
        assert(0 <= dx * dx <= 30125 * 30125 && 0 <= dy * dy <= 30055 * 30055) by (nonlinear_arith)
            requires -30125 <= dx <= 30125, -30055 <= dy <= 30055;
    }
    dx * dx + dy * dy
}

/// The first position closest to the centre.
fn nearest_to_center(ps: &Vec<(i32, i32)>) -> (i: usize)
    requires
        ps@.len() > 0,
        on_standard_map(ps@),
    ensures
        is_first_nearest(ps@, i as int),
{
    let mut best: usize = 0;
    let mut best_d = center_dist_exec(ps[0]);
    let mut j: usize = 1;
    while j < ps.len()
        invariant
            on_standard_map(ps@),
            1 <= j <= ps@.len(),
            best < j,
            best_d == center_dist(ps@[best as int]),
            forall|k: int| 0 <= k < j ==> best_d <= center_dist(#[trigger] ps@[k]),
            forall|k: int| 0 <= k < best ==> best_d < center_dist(#[trigger] ps@[k]),
        decreases ps@.len() - j,
    {
        let d = center_dist_exec(ps[j]);
        if d < best_d {
            best = j;
            best_d = d;
        }
        j = j + 1;
    }
    best
}

/// The last position farthest from the centre.
fn farthest_from_center(ps: &Vec<(i32, i32)>) -> (i: usize)
    requires
        ps@.len() > 0,
        on_standard_map(ps@),
    ensures
        is_last_farthest(ps@, i as int),
{
    let mut best: usize = 0;
    let mut best_d = center_dist_exec(ps[0]);
    let mut j: usize = 1;
    while j < ps.len()
        invariant
            on_standard_map(ps@),
            1 <= j <= ps@.len(),
            best < j,
            best_d == center_dist(ps@[best as int]),
            forall|k: int| 0 <= k < j ==> best_d >= center_dist(#[trigger] ps@[k]),
            forall|k: int| best < k < j ==> best_d > center_dist(#[trigger] ps@[k]),
        decreases ps@.len() - j,
    {
        let d = center_dist_exec(ps[j]);
        if d >= best_d {
            best = j;
            best_d = d;
        }
        j = j + 1;
    }
    best
}

fn marker(x: i32, y: i32, id: &str) -> (f: MapFeature)
    ensures
        poi_marker(f, id@),
        f.x == x,
        f.y == y,
{
    MapFeature {
        x,
        y,
        feature_id: String::from_str(id),
        source: Some(String::from_str("poi_injection")),
        metadata: Vec::new(),
    }
}

/// Push `count` markers with the given id at drawn positions (none when
/// there are no positions).
fn push_drawn_markers(features: &mut Vec<MapFeature>, positions: &Vec<(i32, i32)>, id: &str, count: i32, rng: &mut ChaCha8Rng)
    requires
        count >= 0,
    ensures
        final(features)@.subrange(0, old(features)@.len() as int) == old(features)@,
        positions@.len() == 0 ==> final(features)@.len() == old(features)@.len(),
        positions@.len() > 0 ==> final(features)@.len() == old(features)@.len() + count,
        forall|k: int| old(features)@.len() <= k < final(features)@.len() ==> poi_marker(#[trigger] final(features)@[k], id@)
            && positions@.contains((final(features)@[k].x, final(features)@[k].y)),
{
    let ghost start = features@;
    let mut n: i32 = 0;
    while n < count
        invariant
            0 <= n <= count,
            features@.subrange(0, start.len() as int) == start,
            positions@.len() == 0 ==> features@.len() == start.len(),
            positions@.len() > 0 ==> features@.len() == start.len() + n,
            forall|k: int| start.len() <= k < features@.len() ==> poi_marker(#[trigger] features@[k], id@)
                && positions@.contains((features@[k].x, features@[k].y)),
        decreases count - n,
    {
        match choose_position(rng, positions.as_slice()) {
            Some((x, y)) => {
                let ghost before = features@;
                features.push(marker(x, y, id));
                proof {
                    assert(features@.subrange(0, start.len() as int) =~= before.subrange(0, start.len() as int));
                    assert forall|k: int| start.len() <= k < features@.len() implies poi_marker(#[trigger] features@[k], id@)
                        && positions@.contains((features@[k].x, features@[k].y)) by {
                        if k < before.len() {
                            assert(features@[k] == before[k]);
                        }
                    }
                }
            },
            None => {},
        }
        n = n + 1;
    }
}

/// The positions within ten cells of the centre, in order.
pub open spec fn near_center(ps: Seq<(i32, i32)>) -> Seq<(i32, i32)>
    decreases ps.len(),
{
    if ps.len() == 0 {
        ps
    } else {
        let rest = near_center(ps.drop_last());
        if center_dist(ps.last()) < 100 { rest.push(ps.last()) } else { rest }
    }
}

fn near_center_exec(ps: &Vec<(i32, i32)>) -> (v: Vec<(i32, i32)>)
    requires
        on_standard_map(ps@),
    ensures
        v@ == near_center(ps@),
{
    let mut v: Vec<(i32, i32)> = Vec::new();
    let mut i: usize = 0;
    while i < ps.len()
        invariant
            on_standard_map(ps@),
            i <= ps@.len(),
            v@ == near_center(ps@.subrange(0, i as int)),
        decreases ps@.len() - i,
    {
        proof {
            let pre = ps@.subrange(0, i + 1);
            assert(pre.drop_last() =~= ps@.subrange(0, i as int));
            assert(pre.last() == ps@[i as int]);
        }
        if center_dist_exec(ps[i]) < 100 {
            v.push(ps[i]);
        }
        i = i + 1;
    }
    assert(ps@.subrange(0, i as int) =~= ps@);
    v
}

/// Features `lo..hi` are injected markers with the given id, at positions
/// drawn from `ps`.
pub open spec fn markers_from(fs: Seq<MapFeature>, lo: int, hi: int, id: Seq<char>, ps: Seq<(i32, i32)>) -> bool {
    &&& 0 <= lo <= hi <= fs.len()
    &&& forall|k: int| lo <= k < hi ==> poi_marker(#[trigger] fs[k], id) && ps.contains((fs[k].x, fs[k].y))
}

/// A run of between `min` and `max` drawn markers, or none when there is
/// nothing to draw from.
pub open spec fn drawn_run(fs: Seq<MapFeature>, lo: int, hi: int, id: Seq<char>, ps: Seq<(i32, i32)>, min: int, max: int) -> bool {
    &&& markers_from(fs, lo, hi, id, ps)
    &&& ps.len() == 0 ==> hi == lo
    &&& ps.len() > 0 ==> min <= hi - lo <= max
}

/// The markers injected for a point of interest, after the features already
/// on the map: a town gets 2-3 shop slots near the centre and 3-5 NPC slots;
/// a shrine an altar at the floor nearest the centre and 1-2 NPC slots; a
/// dungeon a boss core at the floor farthest from the centre and 3-5 loot
/// slots; a landmark 2-3 story hooks and 1-2 loot slots; open land nothing.
pub open spec fn injected(poi: POI, fs: Seq<MapFeature>, start: int, floor: Seq<(i32, i32)>) -> bool {
    match poi {
        POI::Town => exists|a: int|
            drawn_run(fs, start, a, "shop_slot"@, near_center(floor), 2, 3)
                && #[trigger] drawn_run(fs, a, fs.len() as int, "npc_slot"@, floor, 3, 5),
        POI::Shrine => if floor.len() == 0 {
            fs.len() == start
        } else {
            &&& start < fs.len()
            &&& poi_marker(fs[start], "altar"@)
            &&& exists|i: int| is_first_nearest(floor, i) && (fs[start].x, fs[start].y) == floor[i]
            &&& drawn_run(fs, start + 1, fs.len() as int, "npc_slot"@, floor, 1, 2)
        },
        POI::Dungeon => if floor.len() == 0 {
            fs.len() == start
        } else {
            &&& start < fs.len()
            &&& poi_marker(fs[start], "boss_core"@)
            &&& exists|i: int| is_last_farthest(floor, i) && (fs[start].x, fs[start].y) == floor[i]
            &&& drawn_run(fs, start + 1, fs.len() as int, "loot_slot"@, floor, 3, 5)
        },
        POI::Landmark => exists|a: int|
            drawn_run(fs, start, a, "story_hook"@, floor, 2, 3)
                && #[trigger] drawn_run(fs, a, fs.len() as int, "loot_slot"@, floor, 1, 2),
        POI::Plain => fs.len() == start,
    }
}

proof fn lemma_near_center_within(ps: Seq<(i32, i32)>)
    ensures
        forall|k: int| 0 <= k < near_center(ps).len() ==> ps.contains(#[trigger] near_center(ps)[k]),
        ps.len() == 0 ==> near_center(ps).len() == 0,
    decreases ps.len(),
{
    if ps.len() > 0 {
        let rest = ps.drop_last();
        lemma_near_center_within(rest);
        assert forall|k: int| 0 <= k < near_center(ps).len() implies ps.contains(#[trigger] near_center(ps)[k]) by {
            if k < near_center(rest).len() {
                assert(near_center(ps)[k] == near_center(rest)[k]);
                let j = choose|j: int| 0 <= j < rest.len() && rest[j] == near_center(rest)[k];
                assert(ps[j] == rest[j]);
            } else {
                assert(ps[ps.len() - 1] == ps.last());
            }
        }
    }
}

proof fn lemma_run_markers(fs: Seq<MapFeature>, lo: int, hi: int, id: Seq<char>, ps: Seq<(i32, i32)>, floor: Seq<(i32, i32)>)
    requires
        markers_from(fs, lo, hi, id, ps),
        forall|k: int| 0 <= k < ps.len() ==> floor.contains(#[trigger] ps[k]),
    ensures
        forall|k: int| lo <= k < hi ==> injected_marker(#[trigger] fs[k], floor),
{
    assert forall|k: int| lo <= k < hi implies injected_marker(#[trigger] fs[k], floor) by {
        assert(poi_marker(fs[k], id));
        let j = choose|j: int| 0 <= j < ps.len() && ps[j] == (fs[k].x, fs[k].y);
        assert(floor.contains(ps[j]));
    }
}

/// An injected marker: tagged as injected, with no annotations, at one of the
/// floor positions.
pub open spec fn injected_marker(f: MapFeature, floor: Seq<(i32, i32)>) -> bool {
    &&& f.source matches Some(s) && s@ == "poi_injection"@
    &&& f.metadata@.len() == 0
    &&& floor.contains((f.x, f.y))
}

/// Whatever the point of interest, every feature injected after the old ones
/// is a marker tagged as injected, with no annotations, on a floor position;
/// open land, or no floor at all, gets none.
pub proof fn law_injected_markers(poi: POI, fs: Seq<MapFeature>, start: int, floor: Seq<(i32, i32)>)
    requires
        0 <= start <= fs.len(),
        injected(poi, fs, start, floor),
    ensures
        forall|k: int| start <= k < fs.len() ==> injected_marker(#[trigger] fs[k], floor),
        (poi is Plain || floor.len() == 0) ==> fs.len() == start,
{
    assert forall|k: int| 0 <= k < floor.len() implies floor.contains(#[trigger] floor[k]) by {}
    lemma_near_center_within(floor);
    match poi {
        POI::Town => {
            let a = choose|a: int|
                drawn_run(fs, start, a, "shop_slot"@, near_center(floor), 2, 3)
                    && #[trigger] drawn_run(fs, a, fs.len() as int, "npc_slot"@, floor, 3, 5);
            lemma_run_markers(fs, start, a, "shop_slot"@, near_center(floor), floor);
            lemma_run_markers(fs, a, fs.len() as int, "npc_slot"@, floor, floor);
        },
        POI::Shrine => {
            if floor.len() > 0 {
                let i = choose|i: int| is_first_nearest(floor, i) && (fs[start].x, fs[start].y) == floor[i];
                assert(floor.contains(floor[i]));
                lemma_run_markers(fs, start + 1, fs.len() as int, "npc_slot"@, floor, floor);
            }
        },
        POI::Dungeon => {
            if floor.len() > 0 {
                let i = choose|i: int| is_last_farthest(floor, i) && (fs[start].x, fs[start].y) == floor[i];
                assert(floor.contains(floor[i]));
                lemma_run_markers(fs, start + 1, fs.len() as int, "loot_slot"@, floor, floor);
            }
        },
        POI::Landmark => {
            let a = choose|a: int|
                drawn_run(fs, start, a, "story_hook"@, floor, 2, 3)
                    && #[trigger] drawn_run(fs, a, fs.len() as int, "loot_slot"@, floor, 1, 2);
            lemma_run_markers(fs, start, a, "story_hook"@, floor, floor);
            lemma_run_markers(fs, a, fs.len() as int, "loot_slot"@, floor, floor);
        },
        POI::Plain => {},
    }
}

/// Append the markers a point of interest gets, drawn from the floor
/// positions.
pub fn inject_poi_markers(features: &mut Vec<MapFeature>, poi: POI, floor_positions: &Vec<(i32, i32)>, rng: &mut ChaCha8Rng)
    requires
        on_standard_map(floor_positions@),
    ensures
        final(features)@.subrange(0, old(features)@.len() as int) == old(features)@,
        injected(poi, final(features)@, old(features)@.len() as int, floor_positions@),
{
    let ghost start = features@.len() as int;
    match poi {
        POI::Town => {
            let center = near_center_exec(floor_positions);
            let n_shop = gen_range_incl_i32(rng, 2, 3);
            push_drawn_markers(features, &center, "shop_slot", n_shop, rng);
            let ghost a = features@.len() as int;
            let ghost mid = features@;
            let n_npc = gen_range_incl_i32(rng, 3, 5);
            push_drawn_markers(features, floor_positions, "npc_slot", n_npc, rng);
            proof {
                assert forall|k: int| start <= k < a implies poi_marker(#[trigger] features@[k], "shop_slot"@)
                    && near_center(floor_positions@).contains((features@[k].x, features@[k].y)) by {
                    assert(features@.subrange(0, a)[k] == mid[k]);
                }
                assert(drawn_run(features@, start, a, "shop_slot"@, near_center(floor_positions@), 2, 3));
                assert(drawn_run(features@, a, features@.len() as int, "npc_slot"@, floor_positions@, 3, 5));
                assert(features@.subrange(0, start) =~= features@.subrange(0, a).subrange(0, start));
            }
        },
        POI::Shrine => {
            if floor_positions.len() > 0 {
                let i = nearest_to_center(floor_positions);
                let (x, y) = floor_positions[i];
                features.push(marker(x, y, "altar"));
            }
            let ghost a = features@.len() as int;
            let ghost mid = features@;
            let n = gen_range_incl_i32(rng, 1, 2);
            push_drawn_markers(features, floor_positions, "npc_slot", n, rng);
            proof {
                if floor_positions@.len() > 0 {
                    assert(features@[start] == mid[start]);
                }
                assert(features@.subrange(0, start) =~= features@.subrange(0, a).subrange(0, start));
            }
        },
        POI::Dungeon => {
            if floor_positions.len() > 0 {
                let i = farthest_from_center(floor_positions);
                let (x, y) = floor_positions[i];
                features.push(marker(x, y, "boss_core"));
            }
            let ghost a = features@.len() as int;
            let ghost mid = features@;
            let n = gen_range_incl_i32(rng, 3, 5);
            push_drawn_markers(features, floor_positions, "loot_slot", n, rng);
            proof {
                if floor_positions@.len() > 0 {
                    assert(features@[start] == mid[start]);
                }
                assert(features@.subrange(0, start) =~= features@.subrange(0, a).subrange(0, start));
            }
        },
        POI::Landmark => {
            let n_hooks = gen_range_incl_i32(rng, 2, 3);
            push_drawn_markers(features, floor_positions, "story_hook", n_hooks, rng);
            let ghost a = features@.len() as int;
            let ghost mid = features@;
            let n_loot = gen_range_incl_i32(rng, 1, 2);
            push_drawn_markers(features, floor_positions, "loot_slot", n_loot, rng);
            proof {
                assert forall|k: int| start <= k < a implies poi_marker(#[trigger] features@[k], "story_hook"@)
                    && floor_positions@.contains((features@[k].x, features@[k].y)) by {
                    assert(features@.subrange(0, a)[k] == mid[k]);
                }
                assert(drawn_run(features@, start, a, "story_hook"@, floor_positions@, 2, 3));
                assert(drawn_run(features@, a, features@.len() as int, "loot_slot"@, floor_positions@, 1, 2));
                assert(features@.subrange(0, start) =~= features@.subrange(0, a).subrange(0, start));
            }
        },
        POI::Plain => {
            assert(features@.subrange(0, start) =~= features@);
        },
    }
}

/// The integer parts of a point-of-interest layout, with what its
/// fractional settings come to: the cells of the meditation paths and the
/// number of wall clusters.
#[derive(Debug, Clone)]
pub struct PoiLayout {
    pub central_clearing_size: usize,
    pub special_features: Option<Vec<String>>,
    pub building_clusters: Option<usize>,
    pub building_size_min: Option<usize>,
    pub building_size_max: Option<usize>,
    pub chamber_count: Option<usize>,
    pub chamber_size_min: Option<usize>,
    pub chamber_size_max: Option<usize>,
    /// Cells of the meditation paths, when the layout has them.
    pub meditation_path_cells: Option<Vec<(usize, usize)>>,
    /// Number of wall clusters, when the layout has a structure density.
    pub wall_cluster_count: Option<usize>,
}

/// A standard-size map.
pub open spec fn standard(m: &TileMap) -> bool {
    &&& m.wf()
    &&& m.width == MAP_WIDTH
    &&& m.height == MAP_HEIGHT
}

/// The cell lies on the standard map.
pub open spec fn on_std(x: int, y: int) -> bool {
    0 <= x < MAP_WIDTH && 0 <= y < MAP_HEIGHT
}

/// A layout step only lays floors of the given material.
pub open spec fn floors_only(old_t: Tile, new_t: Tile, floor_id: Seq<char>) -> bool {
    new_t == old_t || is_floor_named(new_t, floor_id)
}

/// A layout step only raises walls of the given material.
pub open spec fn walls_only(old_t: Tile, new_t: Tile, wall_id: Seq<char>) -> bool {
    new_t == old_t || is_wall_named(new_t, wall_id, 100)
}

proof fn lemma_std_set(m1: &TileMap, m2: &TileMap, x: int, y: int, t: Tile)
    requires
        standard(m1),
        m2.width == m1.width,
        m2.height == m1.height,
        on_std(x, y),
        m2.tiles@ == m1.tiles@.update(cell_index(MAP_WIDTH as int, x, y), t),
    ensures
        m2.tile_at(x, y) == t,
        forall|a: int, b: int| on_std(a, b) && (a != x || b != y) ==> #[trigger] m2.tile_at(a, b) == m1.tile_at(a, b),
{
    lemma_cell_index_bounds(MAP_WIDTH as int, MAP_HEIGHT as int, x, y);
    assert forall|a: int, b: int| on_std(a, b) && (a != x || b != y) implies #[trigger] m2.tile_at(a, b) == m1.tile_at(a, b) by {
        lemma_cell_index_bounds(MAP_WIDTH as int, MAP_HEIGHT as int, a, b);
        lemma_cell_index_injective(MAP_WIDTH as int, a, b, x, y);
    }
}

/// Lay a floor at a cell of the standard map.
fn lay_floor(m: &mut TileMap, x: usize, y: usize, floor_id: &str)
    requires
        standard(old(m)),
        on_std(x as int, y as int),
    ensures
        standard(final(m)),
        is_floor_named(final(m).tile_at(x as int, y as int), floor_id@),
        forall|a: int, b: int| on_std(a, b) && (a != x || b != y) ==> #[trigger] final(m).tile_at(a, b) == old(m).tile_at(a, b),
{
    let ghost m1 = *m;
    let t = Tile::Floor { id: String::from_str(floor_id) };
    m.set_tile(x, y, t);
    proof {
        lemma_std_set(&m1, m, x as int, y as int, t);
    }
}

/// Raise a wall at a cell of the standard map.
fn raise_wall(m: &mut TileMap, x: usize, y: usize, wall_id: &str)
    requires
        standard(old(m)),
        on_std(x as int, y as int),
    ensures
        standard(final(m)),
        is_wall_named(final(m).tile_at(x as int, y as int), wall_id@, 100),
        forall|a: int, b: int| on_std(a, b) && (a != x || b != y) ==> #[trigger] final(m).tile_at(a, b) == old(m).tile_at(a, b),
{
    let ghost m1 = *m;
    let t = Tile::Wall { id: String::from_str(wall_id), hp: 100 };
    m.set_tile(x, y, t);
    proof {
        lemma_std_set(&m1, m, x as int, y as int, t);
    }
}

/// The central clearing: `half` cells around the centre each way, clipped
/// to the map.
pub open spec fn in_clearing(x: int, y: int, half: int) -> bool {
    let cx = (MAP_WIDTH / 2) as int;
    let cy = (MAP_HEIGHT / 2) as int;
    on_std(x, y) && cx - half <= x <= cx + half && cy - half <= y <= cy + half
}

/// Exactly the cells of the clearing hold floors of `floor_id`; the rest
/// are as before.
pub open spec fn clearing_laid(m0: TileMap, m1: TileMap, half: int, floor_id: Seq<char>) -> bool {
    &&& standard(&m1)
    &&& forall|x: int, y: int| on_std(x, y) ==> if in_clearing(x, y, half) {
        is_floor_named(#[trigger] m1.tile_at(x, y), floor_id)
    } else {
        m1.tile_at(x, y) == m0.tile_at(x, y)
    }
}

/// Lay floors over the central clearing.
pub fn carve_clearing(m: &mut TileMap, half: usize, floor_id: &str)
    requires
        standard(old(m)),
        half <= usize::MAX / 2,
    ensures
        standard(final(m)),
        forall|x: int, y: int| on_std(x, y) ==> if in_clearing(x, y, half as int) {
            is_floor_named(#[trigger] final(m).tile_at(x, y), floor_id@)
        } else {
            final(m).tile_at(x, y) == old(m).tile_at(x, y)
        },
{
    let ghost m0 = *m;
    let cx: usize = MAP_WIDTH / 2;
    let cy: usize = MAP_HEIGHT / 2;
    let y_lo = if cy > half { cy - half } else { 0 };
    let y_hi = if cy + half < MAP_HEIGHT - 1 { cy + half } else { MAP_HEIGHT - 1 };
    let x_lo = if cx > half { cx - half } else { 0 };
    let x_hi = if cx + half < MAP_WIDTH - 1 { cx + half } else { MAP_WIDTH - 1 };
    let mut y = y_lo;
    while y <= y_hi
        invariant
            standard(m),
            standard(&m0),
            cx == MAP_WIDTH / 2,
            cy == MAP_HEIGHT / 2,
            y_lo == (if cy > half { cy - half } else { 0 }),
            x_lo == (if cx > half { cx - half } else { 0 }),
            y_hi == (if cy + half < MAP_HEIGHT - 1 { cy + half } else { MAP_HEIGHT - 1 }),
            x_hi == (if cx + half < MAP_WIDTH - 1 { cx + half } else { MAP_WIDTH - 1 }),
            y_lo <= y <= y_hi + 1,
            forall|a: int, b: int| on_std(a, b) ==> if in_clearing(a, b, half as int) && b < y {
                is_floor_named(#[trigger] m.tile_at(a, b), floor_id@)
            } else {
                m.tile_at(a, b) == m0.tile_at(a, b)
            },
        decreases y_hi + 1 - y,
    {
        let mut x = x_lo;
        while x <= x_hi
            invariant
                standard(m),
                standard(&m0),
                cx == MAP_WIDTH / 2,
                cy == MAP_HEIGHT / 2,
                y_lo == (if cy > half { cy - half } else { 0 }),
                x_lo == (if cx > half { cx - half } else { 0 }),
                y_hi == (if cy + half < MAP_HEIGHT - 1 { cy + half } else { MAP_HEIGHT - 1 }),
                x_hi == (if cx + half < MAP_WIDTH - 1 { cx + half } else { MAP_WIDTH - 1 }),
                y_lo <= y <= y_hi,
                x_lo <= x <= x_hi + 1,
                forall|a: int, b: int| on_std(a, b) ==> if in_clearing(a, b, half as int) && (b < y || (b == y && a < x)) {
                    is_floor_named(#[trigger] m.tile_at(a, b), floor_id@)
                } else {
                    m.tile_at(a, b) == m0.tile_at(a, b)
                },
            decreases x_hi + 1 - x,
        {
            lay_floor(m, x, y, floor_id);
            x = x + 1;
        }
        y = y + 1;
    }
}

/// The cell lies in the `w` by `h` box at `(x0, y0)`.
pub open spec fn in_box(x: int, y: int, x0: int, y0: int, w: int, h: int) -> bool {
    x0 <= x < x0 + w && y0 <= y < y0 + h
}

/// The cell lies on the edge of the `w` by `h` box at `(x0, y0)`.
pub open spec fn on_outline(x: int, y: int, x0: int, y0: int, w: int, h: int) -> bool {
    in_box(x, y, x0, y0, w, h) && (x == x0 || x == x0 + w - 1 || y == y0 || y == y0 + h - 1)
}

/// The tile is a wall (of full hit points) or a floor of the given material.
pub open spec fn filled(t: Tile, id: Seq<char>, walls: bool) -> bool {
    if walls { is_wall_named(t, id, 100) } else { is_floor_named(t, id) }
}

/// Raise the outline of a building at `(bx, by)`, `w` by `h`, skipping
/// cells off the map.
fn outline_building(m: &mut TileMap, bx: usize, by: usize, w: usize, h: usize, wall_id: &str)
    requires
        standard(old(m)),
        bx + w <= usize::MAX,
        by + h <= usize::MAX,
    ensures
        standard(final(m)),
        forall|x: int, y: int| on_std(x, y) ==> walls_only(old(m).tile_at(x, y), #[trigger] final(m).tile_at(x, y), wall_id@),
        forall|x: int, y: int| on_std(x, y) ==> if on_outline(x, y, bx as int, by as int, w as int, h as int) {
            is_wall_named(#[trigger] final(m).tile_at(x, y), wall_id@, 100)
        } else {
            final(m).tile_at(x, y) == old(m).tile_at(x, y)
        },
{
    let ghost m0 = *m;
    let mut y = by;
    while y < by + h
        invariant
            standard(m),
            standard(&m0),
            by <= y <= by + h,
            bx + w <= usize::MAX,
            by + h <= usize::MAX,
            forall|a: int, b: int| on_std(a, b) ==> walls_only(m0.tile_at(a, b), #[trigger] m.tile_at(a, b), wall_id@),
            forall|a: int, b: int| on_std(a, b) ==> if on_outline(a, b, bx as int, by as int, w as int, h as int) && b < y {
                is_wall_named(#[trigger] m.tile_at(a, b), wall_id@, 100)
            } else {
                m.tile_at(a, b) == m0.tile_at(a, b)
            },
        decreases by + h - y,
    {
        let mut x = bx;
        while x < bx + w
            invariant
                standard(m),
                standard(&m0),
                by <= y < by + h,
                bx <= x <= bx + w,
                bx + w <= usize::MAX,
                by + h <= usize::MAX,
                forall|a: int, b: int| on_std(a, b) ==> walls_only(m0.tile_at(a, b), #[trigger] m.tile_at(a, b), wall_id@),
                forall|a: int, b: int| on_std(a, b) ==> if on_outline(a, b, bx as int, by as int, w as int, h as int) && (b < y
                    || (b == y && a < x)) {
                    is_wall_named(#[trigger] m.tile_at(a, b), wall_id@, 100)
                } else {
                    m.tile_at(a, b) == m0.tile_at(a, b)
                },
            decreases bx + w - x,
        {
            if x < MAP_WIDTH && y < MAP_HEIGHT {
                if x == bx || x == bx + w - 1 || y == by || y == by + h - 1 {
                    raise_wall(m, x, y, wall_id);
                }
            }
            x = x + 1;
        }
        y = y + 1;
    }
}

/// Fill a rectangle with floors or with walls, skipping cells off the map.
fn fill_rect(m: &mut TileMap, x0: usize, y0: usize, w: usize, h: usize, id: &str, walls: bool)
    requires
        standard(old(m)),
        x0 + w <= usize::MAX,
        y0 + h <= usize::MAX,
    ensures
        standard(final(m)),
        forall|x: int, y: int| on_std(x, y) ==> if walls {
            walls_only(old(m).tile_at(x, y), #[trigger] final(m).tile_at(x, y), id@)
        } else {
            floors_only(old(m).tile_at(x, y), final(m).tile_at(x, y), id@)
        },
        forall|x: int, y: int| on_std(x, y) ==> if in_box(x, y, x0 as int, y0 as int, w as int, h as int) {
            filled(#[trigger] final(m).tile_at(x, y), id@, walls)
        } else {
            final(m).tile_at(x, y) == old(m).tile_at(x, y)
        },
{
    let ghost m0 = *m;
    let mut y = y0;
    while y < y0 + h
        invariant
            standard(m),
            standard(&m0),
            y0 <= y <= y0 + h,
            x0 + w <= usize::MAX,
            y0 + h <= usize::MAX,
            forall|a: int, b: int| on_std(a, b) ==> if walls {
                walls_only(m0.tile_at(a, b), #[trigger] m.tile_at(a, b), id@)
            } else {
                floors_only(m0.tile_at(a, b), m.tile_at(a, b), id@)
            },
            forall|a: int, b: int| on_std(a, b) ==> if in_box(a, b, x0 as int, y0 as int, w as int, y - y0) {
                filled(#[trigger] m.tile_at(a, b), id@, walls)
            } else {
                m.tile_at(a, b) == m0.tile_at(a, b)
            },
        decreases y0 + h - y,
    {
        let mut x = x0;
        while x < x0 + w
            invariant
                standard(m),
                standard(&m0),
                y0 <= y < y0 + h,
                x0 <= x <= x0 + w,
                x0 + w <= usize::MAX,
                y0 + h <= usize::MAX,
                forall|a: int, b: int| on_std(a, b) ==> if walls {
                    walls_only(m0.tile_at(a, b), #[trigger] m.tile_at(a, b), id@)
                } else {
                    floors_only(m0.tile_at(a, b), m.tile_at(a, b), id@)
                },
                forall|a: int, b: int| on_std(a, b) ==> if in_box(a, b, x0 as int, y0 as int, w as int, y - y0) || (b == y && x0
                    <= a < x) {
                    filled(#[trigger] m.tile_at(a, b), id@, walls)
                } else {
                    m.tile_at(a, b) == m0.tile_at(a, b)
                },
            decreases x0 + w - x,
        {
            if x < MAP_WIDTH && y < MAP_HEIGHT {
                if walls {
                    raise_wall(m, x, y, id);
                } else {
                    lay_floor(m, x, y, id);
                }
            }
            x = x + 1;
        }
        y = y + 1;
    }
}

/// The layout raises walls: a town's buildings or a generic wall scatter.
pub open spec fn raises_walls(l: PoiLayout) -> bool {
    l.building_clusters is Some || (l.chamber_count is None && l.meditation_path_cells is None && l.wall_cluster_count is Some)
}

/// The layout's sizes are ones its draws can be made from.
pub open spec fn layout_ok(l: PoiLayout) -> bool {
    &&& l.central_clearing_size <= usize::MAX / 2
    &&& (l.building_clusters matches Some(c) && c > 0) ==> ({
        let lo = match l.building_size_min { Some(v) => v, None => 3 };
        let hi = match l.building_size_max { Some(v) => v, None => 6 };
        lo <= hi <= usize::MAX / 2
    })
    &&& (l.building_clusters is None && (l.chamber_count matches Some(c) && c > 0)) ==> ({
        let lo = match l.chamber_size_min { Some(v) => v, None => 4 };
        let hi = match l.chamber_size_max { Some(v) => v, None => 8 };
        lo <= hi <= usize::MAX / 2
    })
}

/// The cell is on the outline (`outline`) or inside of the box `(x, y, w, h)`.
pub open spec fn box_cell(b: (int, int, int, int), x: int, y: int, outline: bool) -> bool {
    if outline { on_outline(x, y, b.0, b.1, b.2, b.3) } else { in_box(x, y, b.0, b.1, b.2, b.3) }
}

/// Some box of the list has the cell on its outline (or inside).
pub open spec fn in_some_box(boxes: Seq<(int, int, int, int)>, x: int, y: int, outline: bool) -> bool {
    exists|j: int| 0 <= j < boxes.len() && #[trigger] box_cell(boxes[j], x, y, outline)
}

/// Exactly the cells of the boxes (their outlines, or their insides) on the
/// map hold walls or floors of `id`; the rest are as in `m1`.
pub open spec fn boxes_drawn(m1: TileMap, m: TileMap, boxes: Seq<(int, int, int, int)>, outline: bool, walls: bool, id: Seq<char>) -> bool {
    &&& standard(&m)
    &&& forall|x: int, y: int| on_std(x, y) ==> if in_some_box(boxes, x, y, outline) {
        filled(#[trigger] m.tile_at(x, y), id, walls)
    } else {
        m.tile_at(x, y) == m1.tile_at(x, y)
    }
}

proof fn lemma_in_some_box_push(boxes: Seq<(int, int, int, int)>, b: (int, int, int, int), x: int, y: int, outline: bool)
    ensures
        in_some_box(boxes.push(b), x, y, outline) == (in_some_box(boxes, x, y, outline) || box_cell(b, x, y, outline)),
{
    let bs = boxes.push(b);
    if in_some_box(boxes, x, y, outline) {
        let j = choose|j: int| 0 <= j < boxes.len() && #[trigger] box_cell(boxes[j], x, y, outline);
        assert(bs[j] == boxes[j]);
    }
    if box_cell(b, x, y, outline) {
        assert(bs[boxes.len() as int] == b);
    }
    if in_some_box(bs, x, y, outline) {
        let j = choose|j: int| 0 <= j < bs.len() && #[trigger] box_cell(bs[j], x, y, outline);
        if j < boxes.len() {
            assert(bs[j] == boxes[j]);
        }
    }
}

/// A building box as drawn: its corner within five cells past the clearing
/// around the centre (kept on the map), its sides between the layout's
/// least and greatest building size.
pub open spec fn building_box_ok(l: PoiLayout, half: int, b: (int, int, int, int)) -> bool {
    let cx = (MAP_WIDTH / 2) as int;
    let cy = (MAP_HEIGHT / 2) as int;
    let lo = match l.building_size_min { Some(v) => v as int, None => 3 };
    let hi = match l.building_size_max { Some(v) => v as int, None => 6 };
    &&& (if cx > half + 5 { cx - (half + 5) } else { 0 }) <= b.0 <= (if cx + half + 5 < MAP_WIDTH - 1 { cx + half + 5 } else { MAP_WIDTH - 1 })
    &&& (if cy > half + 5 { cy - (half + 5) } else { 0 }) <= b.1 <= (if cy + half + 5 < MAP_HEIGHT - 1 { cy + half + 5 } else { MAP_HEIGHT - 1 })
    &&& lo <= b.2 <= hi && lo <= b.3 <= hi
}

/// A chamber as drawn: its corner at least ten cells in from the left and
/// top and more than ten from the right and bottom edges, its sides between
/// the layout's least and greatest chamber size.
pub open spec fn chamber_box_ok(l: PoiLayout, b: (int, int, int, int)) -> bool {
    let lo = match l.chamber_size_min { Some(v) => v as int, None => 4 };
    let hi = match l.chamber_size_max { Some(v) => v as int, None => 8 };
    &&& 10 <= b.0 < MAP_WIDTH - 10 && 10 <= b.1 < MAP_HEIGHT - 10
    &&& lo <= b.2 <= hi && lo <= b.3 <= hi
}

/// A wall cluster as drawn: a square of side 2 to 4 cornered within ten
/// cells across and six down of the centre.
pub open spec fn cluster_box_ok(b: (int, int, int, int)) -> bool {
    let cx = (MAP_WIDTH / 2) as int;
    let cy = (MAP_HEIGHT / 2) as int;
    &&& cx - 10 <= b.0 <= cx + 10 && cy - 6 <= b.1 <= cy + 6
    &&& 2 <= b.2 <= 4 && b.3 == b.2
}

/// The meditation path list holds the cell.
pub open spec fn path_listed(cells: Seq<(usize, usize)>, x: int, y: int) -> bool {
    exists|k: int| 0 <= k < cells.len() && (#[trigger] cells[k]).0 == x && cells[k].1 == y
}

/// What the layout's features do to the map with its clearing laid, `m1`,
/// whatever is drawn: the outlines of the drawn buildings become walls; or
/// the drawn chambers floor; or exactly the listed meditation path cells on
/// the map floor; or the drawn wall clusters become walls; or nothing
/// changes.
pub open spec fn features_laid(l: PoiLayout, half: int, m1: TileMap, m: TileMap, floor_id: Seq<char>, wall_id: Seq<char>) -> bool {
    match l.building_clusters {
        Some(c) => exists|boxes: Seq<(int, int, int, int)>| boxes.len() == c && (forall|j: int| 0 <= j < boxes.len() ==> building_box_ok(
            l,
            half,
            #[trigger] boxes[j],
        )) && #[trigger] boxes_drawn(m1, m, boxes, true, true, wall_id),
        None => match l.chamber_count {
            Some(c) => exists|boxes: Seq<(int, int, int, int)>| boxes.len() == c && (forall|j: int| 0 <= j < boxes.len() ==> chamber_box_ok(
                l,
                #[trigger] boxes[j],
            )) && #[trigger] boxes_drawn(m1, m, boxes, false, false, floor_id),
            None => match l.meditation_path_cells {
                Some(cells) => standard(&m) && forall|x: int, y: int| on_std(x, y) ==> if path_listed(cells@, x, y) {
                    is_floor_named(#[trigger] m.tile_at(x, y), floor_id)
                } else {
                    m.tile_at(x, y) == m1.tile_at(x, y)
                },
                None => match l.wall_cluster_count {
                    Some(c) => exists|boxes: Seq<(int, int, int, int)>| boxes.len() == c && (forall|j: int| 0 <= j < boxes.len() ==> cluster_box_ok(
                        #[trigger] boxes[j],
                    )) && #[trigger] boxes_drawn(m1, m, boxes, false, true, wall_id),
                    None => m == m1,
                },
            },
        },
    }
}

/// The layout draws from the random source: it has buildings, chambers or
/// wall clusters to place.
pub open spec fn layout_draws(l: PoiLayout) -> bool {
    match l.building_clusters {
        Some(c) => c > 0,
        None => match l.chamber_count {
            Some(c) => c > 0,
            None => l.meditation_path_cells is None && (l.wall_cluster_count matches Some(c) && c > 0),
        },
    }
}

/// Lay out a point of interest: floor the central clearing, then, by what
/// the layout has, raise the outlines of a town's buildings, carve a
/// dungeon's chambers, floor a shrine's meditation paths, or scatter wall
/// clusters; each placement is drawn from `rng`.
pub fn apply_poi_layout(m: &mut TileMap, layout: &PoiLayout, floor_id: &str, wall_id: &str, rng: &mut ChaCha8Rng)
    requires
        standard(old(m)),
        layout_ok(*layout),
    ensures
        standard(final(m)),
        forall|x: int, y: int| on_std(x, y) ==> {
            let o = old(m).tile_at(x, y);
            let t = #[trigger] final(m).tile_at(x, y);
            &&& t == o || is_floor_named(t, floor_id@) || is_wall_named(t, wall_id@, 100)
            &&& in_clearing(x, y, (layout.central_clearing_size / 2) as int) ==> (is_floor_named(t, floor_id@)
                || (raises_walls(*layout) && is_wall_named(t, wall_id@, 100)))
        },
        exists|m1: TileMap| #[trigger] clearing_laid(*old(m), m1, (layout.central_clearing_size / 2) as int, floor_id@) && features_laid(
            *layout,
            (layout.central_clearing_size / 2) as int,
            m1,
            *final(m),
            floor_id@,
            wall_id@,
        ),
        !layout_draws(*layout) ==> *final(rng) == *old(rng),
{
    let ghost m0 = *m;
    let ghost rng0 = *rng;
    let half = layout.central_clearing_size / 2;
    carve_clearing(m, half, floor_id);
    let ghost m1 = *m;
    assert(clearing_laid(m0, m1, half as int, floor_id@));
    let ghost mut boxes: Seq<(int, int, int, int)> = Seq::empty();
    let cx: usize = MAP_WIDTH / 2;
    let cy: usize = MAP_HEIGHT / 2;
    if let Some(clusters) = layout.building_clusters {
        let size_min = match layout.building_size_min { Some(v) => v, None => 3 };
        let size_max = match layout.building_size_max { Some(v) => v, None => 6 };
        let mut i: usize = 0;
        while i < clusters
            invariant
                standard(m),
                standard(&m1),
                i <= clusters,
                clusters > 0 ==> size_min <= size_max <= usize::MAX / 2,
                half <= usize::MAX / 2,
                cx == MAP_WIDTH / 2,
                cy == MAP_HEIGHT / 2,
                forall|a: int, b: int| on_std(a, b) ==> walls_only(m1.tile_at(a, b), #[trigger] m.tile_at(a, b), wall_id@),
                layout.building_clusters == Some(clusters),
                size_min == (match layout.building_size_min { Some(v) => v, None => 3 }),
                size_max == (match layout.building_size_max { Some(v) => v, None => 6 }),
                half == layout.central_clearing_size / 2,
                boxes.len() == i,
                forall|j: int| 0 <= j < boxes.len() ==> building_box_ok(*layout, half as int, #[trigger] boxes[j]),
                boxes_drawn(m1, *m, boxes, true, true, wall_id@),
                i == 0 ==> *rng == rng0,
            decreases clusters - i,
        {
            let x_lo = if cx > half + 5 { cx - (half + 5) } else { 0 };
            let x_hi = if cx + (half + 5) < MAP_WIDTH - 1 { cx + (half + 5) } else { MAP_WIDTH - 1 };
            let y_lo = if cy > half + 5 { cy - (half + 5) } else { 0 };
            let y_hi = if cy + (half + 5) < MAP_HEIGHT - 1 { cy + (half + 5) } else { MAP_HEIGHT - 1 };
            let bx = gen_range_incl_usize(rng, x_lo, x_hi);
            let by = gen_range_incl_usize(rng, y_lo, y_hi);
            let bw = gen_range_incl_usize(rng, size_min, size_max);
            let bh = gen_range_incl_usize(rng, size_min, size_max);
            let ghost before = *m;
            outline_building(m, bx, by, bw, bh, wall_id);
            proof {
                let nb = (bx as int, by as int, bw as int, bh as int);
                let bs = boxes.push(nb);
                assert forall|j: int| 0 <= j < bs.len() implies building_box_ok(*layout, half as int, #[trigger] bs[j]) by {
                    if j < boxes.len() {
                        assert(bs[j] == boxes[j]);
                    }
                }
                assert forall|x: int, y: int| on_std(x, y) implies if in_some_box(bs, x, y, true) {
                    filled(#[trigger] m.tile_at(x, y), wall_id@, true)
                } else {
                    m.tile_at(x, y) == m1.tile_at(x, y)
                } by {
                    lemma_in_some_box_push(boxes, nb, x, y, true);
                    assert(before.tile_at(x, y) == before.tile_at(x, y));
                }
                boxes = bs;
            }
            i = i + 1;
        }
    } else if let Some(count) = layout.chamber_count {
        let size_min = match layout.chamber_size_min { Some(v) => v, None => 4 };
        let size_max = match layout.chamber_size_max { Some(v) => v, None => 8 };
        let mut i: usize = 0;
        while i < count
            invariant
                standard(m),
                standard(&m1),
                i <= count,
                count > 0 ==> size_min <= size_max <= usize::MAX / 2,
                forall|a: int, b: int| on_std(a, b) ==> floors_only(m1.tile_at(a, b), #[trigger] m.tile_at(a, b), floor_id@),
                layout.building_clusters is None,
                layout.chamber_count == Some(count),
                size_min == (match layout.chamber_size_min { Some(v) => v, None => 4 }),
                size_max == (match layout.chamber_size_max { Some(v) => v, None => 8 }),
                boxes.len() == i,
                forall|j: int| 0 <= j < boxes.len() ==> chamber_box_ok(*layout, #[trigger] boxes[j]),
                boxes_drawn(m1, *m, boxes, false, false, floor_id@),
                i == 0 ==> *rng == rng0,
            decreases count - i,
        {
            let chx = gen_range_usize(rng, 10, MAP_WIDTH - 10);
            let chy = gen_range_usize(rng, 10, MAP_HEIGHT - 10);
            let chw = gen_range_incl_usize(rng, size_min, size_max);
            let chh = gen_range_incl_usize(rng, size_min, size_max);
            let ghost before = *m;
            fill_rect(m, chx, chy, chw, chh, floor_id, false);
            proof {
                let nb = (chx as int, chy as int, chw as int, chh as int);
                let bs = boxes.push(nb);
                assert forall|j: int| 0 <= j < bs.len() implies chamber_box_ok(*layout, #[trigger] bs[j]) by {
                    if j < boxes.len() {
                        assert(bs[j] == boxes[j]);
                    }
                }
                assert forall|x: int, y: int| on_std(x, y) implies if in_some_box(bs, x, y, false) {
                    filled(#[trigger] m.tile_at(x, y), floor_id@, false)
                } else {
                    m.tile_at(x, y) == m1.tile_at(x, y)
                } by {
                    lemma_in_some_box_push(boxes, nb, x, y, false);
                    assert(before.tile_at(x, y) == before.tile_at(x, y));
                }
                boxes = bs;
            }
            i = i + 1;
        }
    } else if let Some(cells) = &layout.meditation_path_cells {
        let mut i: usize = 0;
        while i < cells.len()
            invariant
                standard(m),
                standard(&m1),
                i <= cells@.len(),
                forall|a: int, b: int| on_std(a, b) ==> floors_only(m1.tile_at(a, b), #[trigger] m.tile_at(a, b), floor_id@),
                layout.building_clusters is None,
                layout.chamber_count is None,
                layout.meditation_path_cells == Some(*cells),
                *rng == rng0,
                forall|a: int, b: int| on_std(a, b) ==> if path_listed(cells@.subrange(0, i as int), a, b) {
                    is_floor_named(#[trigger] m.tile_at(a, b), floor_id@)
                } else {
                    m.tile_at(a, b) == m1.tile_at(a, b)
                },
            decreases cells@.len() - i,
        {
            let (x, y) = cells[i];
            let ghost before = *m;
            if x < MAP_WIDTH && y < MAP_HEIGHT {
                lay_floor(m, x, y, floor_id);
            }
            proof {
                let pre = cells@.subrange(0, i as int);
                let pre1 = cells@.subrange(0, i + 1);
                assert forall|a: int, b: int| on_std(a, b) implies if path_listed(pre1, a, b) {
                    is_floor_named(#[trigger] m.tile_at(a, b), floor_id@)
                } else {
                    m.tile_at(a, b) == m1.tile_at(a, b)
                } by {
                    assert(before.tile_at(a, b) == before.tile_at(a, b));
                    if path_listed(pre, a, b) {
                        let k = choose|k: int| 0 <= k < pre.len() && (#[trigger] pre[k]).0 == a && pre[k].1 == b;
                        assert(pre1[k] == pre[k]);
                    }
                    if a == x && b == y {
                        assert(pre1[i as int] == cells@[i as int]);
                    }
                    if path_listed(pre1, a, b) && !(a == x && b == y) {
                        let k = choose|k: int| 0 <= k < pre1.len() && (#[trigger] pre1[k]).0 == a && pre1[k].1 == b;
                        if k < i {
                            assert(pre[k] == pre1[k]);
                        } else {
                            assert(pre1[k] == cells@[i as int]);
                        }
                    }
                }
            }
            i = i + 1;
        }
        proof {
            assert(cells@.subrange(0, cells@.len() as int) =~= cells@);
        }
    } else if let Some(clusters) = layout.wall_cluster_count {
        let mut i: usize = 0;
        while i < clusters
            invariant
                standard(m),
                standard(&m1),
                i <= clusters,
                cx == MAP_WIDTH / 2,
                cy == MAP_HEIGHT / 2,
                forall|a: int, b: int| on_std(a, b) ==> walls_only(m1.tile_at(a, b), #[trigger] m.tile_at(a, b), wall_id@),
                layout.building_clusters is None,
                layout.chamber_count is None,
                layout.meditation_path_cells is None,
                layout.wall_cluster_count == Some(clusters),
                boxes.len() == i,
                forall|j: int| 0 <= j < boxes.len() ==> cluster_box_ok(#[trigger] boxes[j]),
                boxes_drawn(m1, *m, boxes, false, true, wall_id@),
                i == 0 ==> *rng == rng0,
            decreases clusters - i,
        {
            let sx = gen_range_incl_usize(rng, cx - 10, cx + 10);
            let sy = gen_range_incl_usize(rng, cy - 6, cy + 6);
            let size = gen_range_incl_usize(rng, 2, 4);
            let ghost before = *m;
            fill_rect(m, sx, sy, size, size, wall_id, true);
            proof {
                let nb = (sx as int, sy as int, size as int, size as int);
                let bs = boxes.push(nb);
                assert forall|j: int| 0 <= j < bs.len() implies cluster_box_ok(#[trigger] bs[j]) by {
                    if j < boxes.len() {
                        assert(bs[j] == boxes[j]);
                    }
                }
                assert forall|x: int, y: int| on_std(x, y) implies if in_some_box(bs, x, y, false) {
                    filled(#[trigger] m.tile_at(x, y), wall_id@, true)
                } else {
                    m.tile_at(x, y) == m1.tile_at(x, y)
                } by {
                    lemma_in_some_box_push(boxes, nb, x, y, false);
                    assert(before.tile_at(x, y) == before.tile_at(x, y));
                }
                boxes = bs;
            }
            i = i + 1;
        }
    }
}

/// Place the layout's special features, each at a position taken from the
/// available ones, until the positions run out.
pub fn place_special_features(
    features: &mut Vec<MapFeature>,
    layout: &PoiLayout,
    available_positions: &mut Vec<(i32, i32)>,
    rng: &mut ChaCha8Rng,
)
    ensures
        final(features)@.subrange(0, old(features)@.len() as int) == old(features)@,
        final(features)@.len() <= old(features)@.len() + match layout.special_features {
            Some(ids) => ids@.len(),
            None => 0,
        },
        forall|k: int| old(features)@.len() <= k < final(features)@.len() ==> {
            &&& old(available_positions)@.contains(((#[trigger] final(features)@[k]).x, final(features)@[k].y))
            &&& final(features)@[k].source matches Some(s) && s@ == "poi"@
            &&& (layout.special_features matches Some(ids) && exists|j: int| 0 <= j < ids@.len() && ids@[j]@ == final(features)@[k].feature_id@)
        },
        ({
            let n = match layout.special_features {
                Some(ids) => ids@.len() as int,
                None => 0,
            };
            let placed = if n < old(available_positions)@.len() { n } else { old(available_positions)@.len() as int };
            &&& final(features)@.len() == old(features)@.len() + placed
            &&& final(available_positions)@.len() == old(available_positions)@.len() - placed
            &&& forall|k: int| old(features)@.len() <= k < final(features)@.len() ==> (layout.special_features matches Some(ids) && ids@[k
                - old(features)@.len()]@ == (#[trigger] final(features)@[k]).feature_id@ && final(features)@[k].metadata@.len() == 0)
        }),
{
    let ghost start = features@;
    let ghost avail0 = available_positions@;
    if let Some(ids) = &layout.special_features {
        let mut i: usize = 0;
        while i < ids.len()
            invariant
                i <= ids@.len(),
                layout.special_features == Some(*ids),
                features@.subrange(0, start.len() as int) == start,
                start.len() <= features@.len() <= start.len() + i,
                forall|p: (i32, i32)| available_positions@.contains(p) ==> avail0.contains(p),
                forall|k: int| start.len() <= k < features@.len() ==> {
                    &&& avail0.contains(((#[trigger] features@[k]).x, features@[k].y))
                    &&& features@[k].source matches Some(s) && s@ == "poi"@
                    &&& exists|j: int| 0 <= j < ids@.len() && ids@[j]@ == features@[k].feature_id@
                },
                features@.len() == start.len() + (if (i as int) < avail0.len() { i as int } else { avail0.len() as int }),
                available_positions@.len() == avail0.len() - (if (i as int) < avail0.len() { i as int } else { avail0.len() as int }),
                forall|k: int| start.len() <= k < features@.len() ==> ids@[k - start.len()]@ == (#[trigger] features@[k]).feature_id@
                    && features@[k].metadata@.len() == 0,
            decreases ids@.len() - i,
        {
            let ghost av = available_positions@;
            match take_random_position(available_positions, rng) {
                Some((x, y)) => {
                    proof {
                        assert forall|p: (i32, i32)| available_positions@.contains(p) implies avail0.contains(p) by {
                            let q = choose|q: int| 0 <= q < available_positions@.len() && available_positions@[q] == p;
                            let r = choose|r: int| 0 <= r < av.len() && Some(av[r]) == Some((x, y))
                                && available_positions@ == av.update(r, av.last()).drop_last();
                            if q == r {
                                assert(av.contains(av.last()));
                            } else {
                                assert(av[q] == p);
                            }
                        }
                        let r = choose|r: int| 0 <= r < av.len() && Some(av[r]) == Some((x, y))
                            && available_positions@ == av.update(r, av.last()).drop_last();
                        assert(av.contains((x, y)));
                    }
                    let ghost before = features@;
                    features.push(MapFeature {
                        x,
                        y,
                        feature_id: ids[i].clone(),
                        source: Some(String::from_str("poi")),
                        metadata: Vec::new(),
                    });
                    proof {
                        assert(features@.subrange(0, start.len() as int) =~= before.subrange(0, start.len() as int));
                        assert forall|k: int| start.len() <= k < features@.len() implies {
                            &&& avail0.contains(((#[trigger] features@[k]).x, features@[k].y))
                            &&& features@[k].source matches Some(s) && s@ == "poi"@
                            &&& exists|j: int| 0 <= j < ids@.len() && ids@[j]@ == features@[k].feature_id@
                        } by {
                            if k < before.len() {
                                assert(features@[k] == before[k]);
                            } else {
                                assert(ids@[i as int]@ == features@[k].feature_id@);
                            }
                        }
                        assert forall|k: int| start.len() <= k < features@.len() implies ids@[k - start.len()]@ == (
                        #[trigger] features@[k]).feature_id@ && features@[k].metadata@.len() == 0 by {
                            if k < before.len() {
                                assert(features@[k] == before[k]);
                            }
                        }
                    }
                },
                None => {},
            }
            i = i + 1;
        }
    }
}

} // verus!
