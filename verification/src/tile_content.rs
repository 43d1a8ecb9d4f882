//! What a freshly generated tile is populated with: enemies kept away from
//! the arrival point, items drawn onto free walkable cells up to the level's
//! tier, and wandering NPCs. Quest structures may fix some of these first.

use vstd::prelude::*;
use rand_chacha::ChaCha8Rng;
use crate::map::{TileMap, tile_walkable, cell_index};
use crate::poi::POI;
use crate::item::{ItemRegistry, get_item_def, last_item_with};
use crate::spawn::{SpawnTable, WeightedSpawn, allowed_spawns, spawn_weights, tier_threshold, tier_threshold_exec, weighted_pick_by_level_and_tier};
use vstd::arithmetic::div_mod::{lemma_fundamental_div_mod, lemma_mod_bound, lemma_div_pos_is_pos};
use crate::spatial::{apart, distribute_points_grid};
use crate::weighted::{weight_sum, lemma_weight_sum_nonneg};
use crate::rng::{gen_range_usize, gen_ratio};

verus! {

/// How many regular enemies a tile of each kind gets at most.
pub open spec fn enemy_count(poi: POI) -> usize {
    match poi {
        POI::Town => 0,
        POI::Shrine => 2,
        POI::Landmark => 3,
        POI::Dungeon => 5,
        POI::Plain => 3,
    }
}

/// Regular enemies a tile of this kind gets at most.
pub fn enemy_count_for(poi: POI) -> (n: usize)
    ensures
        n == enemy_count(poi),
{
    match poi {
        POI::Town => 0,
        POI::Shrine => 2,
        POI::Landmark => 3,
        POI::Dungeon => 5,
        POI::Plain => 3,
    }
}

/// `p` lies at least `gap` cells from `spawn` along some axis.
pub open spec fn far_from(p: (i32, i32), spawn: (i32, i32), gap: int) -> bool {
    apart(p, spawn, gap)
}

/// The cells at least `gap` from `spawn` along some axis, in order.
pub open spec fn far_cells(ps: Seq<(i32, i32)>, spawn: (i32, i32), gap: int) -> Seq<(i32, i32)>
    decreases ps.len(),
{
    if ps.len() == 0 {
        ps
    } else {
        let rest = far_cells(ps.drop_last(), spawn, gap);
        if far_from(ps.last(), spawn, gap) { rest.push(ps.last()) } else { rest }
    }
}

proof fn lemma_far_cells(ps: Seq<(i32, i32)>, spawn: (i32, i32), gap: int)
    ensures
        far_cells(ps, spawn, gap).len() <= ps.len(),
        forall|k: int| 0 <= k < far_cells(ps, spawn, gap).len() ==> ps.contains(#[trigger] far_cells(ps, spawn, gap)[k])
            && far_from(far_cells(ps, spawn, gap)[k], spawn, gap),
        forall|k: int| 0 <= k < ps.len() && far_from(#[trigger] ps[k], spawn, gap) ==> far_cells(ps, spawn, gap).contains(ps[k]),
    decreases ps.len(),
{
    if ps.len() > 0 {
        let rest = ps.drop_last();
        lemma_far_cells(rest, spawn, gap);
        let f = far_cells(ps, spawn, gap);
        let fr = far_cells(rest, spawn, gap);
        assert forall|k: int| 0 <= k < f.len() implies ps.contains(#[trigger] f[k]) && far_from(f[k], spawn, gap) by {
            if k < fr.len() {
                assert(f[k] == fr[k]);
                let j = choose|j: int| 0 <= j < rest.len() && rest[j] == fr[k];
                assert(ps[j] == rest[j]);
            } else {
                assert(ps[ps.len() - 1] == f[k]);
            }
        }
        assert forall|k: int| 0 <= k < ps.len() && far_from(#[trigger] ps[k], spawn, gap) implies f.contains(ps[k]) by {
            if k < rest.len() {
                assert(rest[k] == ps[k]);
                let j = choose|j: int| 0 <= j < fr.len() && fr[j] == rest[k];
                assert(f[j] == fr[j]);
            } else {
                assert(f[f.len() - 1] == ps[k]);
            }
        }
    }
}

/// The cells of `ps` at least `gap` from `spawn` along some axis, in order.
pub fn far_positions(ps: &Vec<(i32, i32)>, spawn: (i32, i32), gap: i32) -> (v: Vec<(i32, i32)>)
    ensures
        v@ == far_cells(ps@, spawn, gap as int),
{
    let mut v: Vec<(i32, i32)> = Vec::new();
    let mut i: usize = 0;
    while i < ps.len()
        invariant
            i <= ps@.len(),
            v@ == far_cells(ps@.take(i as int), spawn, gap as int),
        decreases ps@.len() - i,
    {
        proof {
            assert(ps@.take(i + 1).drop_last() =~= ps@.take(i as int));
            assert(ps@.take(i + 1).last() == ps@[i as int]);
        }
        let p = ps[i];
        let dx = if p.0 >= spawn.0 { p.0 as i64 - spawn.0 as i64 } else { spawn.0 as i64 - p.0 as i64 };
        let dy = if p.1 >= spawn.1 { p.1 as i64 - spawn.1 as i64 } else { spawn.1 as i64 - p.1 as i64 };
        if dx >= gap as i64 || dy >= gap as i64 {
            v.push(p);
        }
        i = i + 1;
    }
    proof {
        assert(ps@.take(ps@.len() as int) =~= ps@);
    }
    v
}

/// A regular enemy placement: on a walkable cell at least 15 from the arrival
/// point, with an id the level allows and a positive weight gives.
pub open spec fn enemy_placed(
    items: &ItemRegistry,
    table: SpawnTable,
    walkable: Seq<(i32, i32)>,
    spawn: (i32, i32),
    level: u32,
    e: (i32, i32, String),
) -> bool {
    let valid = allowed_spawns(items, table.enemies@, level, false);
    &&& walkable.contains((e.0, e.1))
    &&& far_from((e.0, e.1), spawn, 15)
    &&& exists|i: int| 0 <= i < valid.len() && valid[i].weight > 0 && #[trigger] valid[i].id@ == e.2@
}

/// The regular enemies of a tile: up to `enemy_count(poi)` spread points at
/// least 20 apart among the walkable cells 15 or more from the arrival point,
/// each given an enemy drawn by weight from those the level allows.
pub fn spawn_enemies(
    items: &ItemRegistry,
    table: &SpawnTable,
    walkable: &Vec<(i32, i32)>,
    spawn: (i32, i32),
    poi: POI,
    level: u32,
    rng: &mut ChaCha8Rng,
) -> (r: Vec<(i32, i32, String)>)
    requires
        weight_sum(spawn_weights(allowed_spawns(items, table.enemies@, level, false))) <= u32::MAX,
    ensures
        r@.len() <= enemy_count(poi),
        forall|k: int| 0 <= k < r@.len() ==> enemy_placed(items, *table, walkable@, spawn, level, #[trigger] r@[k]),
        forall|a: int, b: int| 0 <= a < b < r@.len() ==> apart((r@[b].0, r@[b].1), (r@[a].0, r@[a].1), 20),
        weight_sum(spawn_weights(allowed_spawns(items, table.enemies@, level, false))) == 0 ==> r@.len() == 0,
        (weight_sum(spawn_weights(allowed_spawns(items, table.enemies@, level, false))) > 0 && enemy_count(poi) > 0
            && far_cells(walkable@, spawn, 15).len() > 0) ==> r@.len() >= 1,
{
    let count = enemy_count_for(poi);
    let safe = far_positions(walkable, spawn, 15);
    proof {
        lemma_far_cells(walkable@, spawn, 15);
    }
    let spots = distribute_points_grid(safe.as_slice(), count, 20, rng);
    proof {
        if safe@.len() > 0 && count > 0 && spots@.len() == 0 {
            assert(safe@.contains(safe@[0]));
        }
    }
    let ghost valid = allowed_spawns(items, table.enemies@, level, false);
    let mut r: Vec<(i32, i32, String)> = Vec::new();
    let ghost mut idx: Seq<int> = Seq::empty();
    let mut k: usize = 0;
    while k < spots.len()
        invariant
            k <= spots@.len(),
            spots@.len() <= count,
            count == enemy_count(poi),
            valid == allowed_spawns(items, table.enemies@, level, false),
            weight_sum(spawn_weights(valid)) <= u32::MAX,
            forall|j: int| 0 <= j < spots@.len() ==> safe@.contains(#[trigger] spots@[j]),
            forall|a: int, b: int| 0 <= a < b < spots@.len() ==> apart(#[trigger] spots@[b], #[trigger] spots@[a], 20),
            safe@ == far_cells(walkable@, spawn, 15),
            forall|j: int| 0 <= j < safe@.len() ==> walkable@.contains(#[trigger] safe@[j]) && far_from(safe@[j], spawn, 15),
            r@.len() <= k,
            forall|j: int| 0 <= j < r@.len() ==> enemy_placed(items, *table, walkable@, spawn, level, #[trigger] r@[j]),
            idx.len() == r@.len(),
            forall|j: int| 0 <= j < r@.len() ==> 0 <= #[trigger] idx[j] < k && (r@[j].0, r@[j].1) == spots@[idx[j]],
            forall|a: int, b: int| 0 <= a < b < r@.len() ==> #[trigger] idx[a] < #[trigger] idx[b],
            forall|a: int, b: int| 0 <= a < b < r@.len() ==> apart((r@[b].0, r@[b].1), (r@[a].0, r@[a].1), 20),
            weight_sum(spawn_weights(valid)) > 0 ==> r@.len() == k,
            weight_sum(spawn_weights(valid)) == 0 ==> r@.len() == 0,
        decreases spots@.len() - k,
    {
        let p = spots[k];
        proof {
            assert(safe@.contains(spots@[k as int]));
            let j = choose|j: int| 0 <= j < safe@.len() && safe@[j] == spots@[k as int];
            assert(walkable@.contains(safe@[j]));
        }
        let pick = weighted_pick_by_level_and_tier(items, &table.enemies, level, rng, false);
        proof {
            lemma_weight_sum_nonneg(spawn_weights(valid));
            if pick is Some {
                assert(weight_sum(spawn_weights(valid)) > 0);
                assert(exists|i: int| 0 <= i < valid.len() && valid[i].weight > 0 && #[trigger] valid[i].id@ == pick->0@);
            }
        }
        match pick {
            Some(id) => {
                let ghost before = r@;
                let ghost sid = id@;
                proof {
                    let i = choose|i: int| 0 <= i < valid.len() && valid[i].weight > 0 && #[trigger] valid[i].id@ == sid;
                    let j = choose|j: int| 0 <= j < safe@.len() && safe@[j] == spots@[k as int];
                    assert(walkable@.contains(safe@[j]) && far_from(safe@[j], spawn, 15));
                }
                r.push((p.0, p.1, id));
                proof {
                    let e = r@[before.len() as int];
                    assert(e.2@ == sid);
                    assert((e.0, e.1) == p);
                    let i = choose|i: int| 0 <= i < valid.len() && valid[i].weight > 0 && #[trigger] valid[i].id@ == sid;
                    assert(valid[i].id@ == e.2@);
                    assert(enemy_placed(items, *table, walkable@, spawn, level, e));
                    let ni = idx.push(k as int);
                    assert forall|a: int, b: int| 0 <= a < b < r@.len() implies apart((r@[b].0, r@[b].1), (r@[a].0, r@[a].1), 20) by {
                        if b < before.len() {
                            assert(r@[a] == before[a] && r@[b] == before[b]);
                        } else {
                            assert(r@[a] == before[a]);
                            assert(idx[a] < k);
                            assert(apart(spots@[k as int], spots@[idx[a]], 20));
                        }
                    }
                    assert forall|j: int| 0 <= j < r@.len() implies 0 <= #[trigger] ni[j] < k + 1 && (r@[j].0, r@[j].1) == spots@[ni[j]] by {
                        if j < before.len() {
                            assert(r@[j] == before[j]);
                        }
                    }
                    idx = ni;
                }
            },
            None => {},
        }
        k = k + 1;
    }
    r
}

/// The enemies of a tile: those a quest structure fixes when there are any,
/// else the regular enemies drawn by `spawn_enemies`.
pub fn tile_enemies(
    quest_enemies: &Vec<(i32, i32, String)>,
    items: &ItemRegistry,
    table: &SpawnTable,
    walkable: &Vec<(i32, i32)>,
    spawn: (i32, i32),
    poi: POI,
    level: u32,
    rng: &mut ChaCha8Rng,
) -> (r: Vec<(i32, i32, String)>)
    requires
        weight_sum(spawn_weights(allowed_spawns(items, table.enemies@, level, false))) <= u32::MAX,
    ensures
        quest_enemies@.len() > 0 ==> cells_of(r@) == cells_of(quest_enemies@) && r@.len() == quest_enemies@.len()
            && forall|k: int| 0 <= k < r@.len() ==> (#[trigger] r@[k]).2@ == quest_enemies@[k].2@,
        quest_enemies@.len() == 0 ==> r@.len() <= enemy_count(poi) && forall|k: int| 0 <= k < r@.len() ==> enemy_placed(
            items,
            *table,
            walkable@,
            spawn,
            level,
            #[trigger] r@[k],
        ),
{
    if quest_enemies.len() > 0 {
        let mut r: Vec<(i32, i32, String)> = Vec::new();
        let mut k: usize = 0;
        while k < quest_enemies.len()
            invariant
                k <= quest_enemies@.len(),
                r@.len() == k,
                forall|j: int| 0 <= j < k ==> (#[trigger] r@[j]).0 == quest_enemies@[j].0 && r@[j].1 == quest_enemies@[j].1
                    && r@[j].2@ == quest_enemies@[j].2@,
            decreases quest_enemies@.len() - k,
        {
            let e = &quest_enemies[k];
            r.push((e.0, e.1, e.2.clone()));
            k = k + 1;
        }
        proof {
            assert(cells_of(r@) =~= cells_of(quest_enemies@));
        }
        r
    } else {
        spawn_enemies(items, table, walkable, spawn, poi, level, rng)
    }
}

/// The map cell of a storage index, for a map `width` wide.
fn cell_of_index(map: &TileMap, idx: usize) -> (p: (i32, i32))
    requires
        map.wf(),
        idx < map.tiles@.len(),
    ensures
        map.in_bounds_spec(p.0 as int, p.1 as int),
        cell_index(map.width as int, p.0 as int, p.1 as int) == idx,
{
    proof {
        assert(map.width > 0) by (nonlinear_arith)
            requires idx < map.width * map.height, idx >= 0, map.height >= 0;
        lemma_fundamental_div_mod(idx as int, map.width as int);
        lemma_mod_bound(idx as int, map.width as int);
        lemma_div_pos_is_pos(idx as int, map.width as int);
        assert(idx / map.width < map.height) by (nonlinear_arith)
            requires
                idx < map.width * map.height,
                map.width > 0,
                idx == map.width * (idx / map.width) + idx % map.width,
                idx % map.width >= 0;
        assert((idx / map.width) * map.width == map.width * (idx / map.width)) by (nonlinear_arith);
    }
    ((idx % map.width) as i32, (idx / map.width) as i32)
}

/// No position occurs twice.
pub open spec fn distinct_cells(ps: Seq<(i32, i32)>) -> bool {
    forall|a: int, b: int| 0 <= a < b < ps.len() ==> ps[a] != ps[b]
}

/// The positions of placements.
pub open spec fn cells_of(r: Seq<(i32, i32, String)>) -> Seq<(i32, i32)> {
    r.map_values(|e: (i32, i32, String)| (e.0, e.1))
}

/// A drawn item placement: on a walkable cell, with an id the table lists at
/// positive weight, of a known item whose tier the level allows.
pub open spec fn item_placed(items: &ItemRegistry, table: SpawnTable, map: &TileMap, level: u32, e: (i32, i32, String)) -> bool {
    &&& map.walkable_at(e.0 as int, e.1 as int)
    &&& exists|i: int| 0 <= i < table.items@.len() && table.items@[i].weight > 0 && #[trigger] table.items@[i].id@ == e.2@
    &&& last_item_with(items.defs@, e.2@) matches Some(d) && items.defs@[d].tier <= tier_threshold(level)
}

/// The items of a tile: the quest structure's items first; then, when fewer
/// than three came from it, each table entry gets as many tries as its
/// weight. A try draws up to ten cells and stops at the first walkable cell
/// not used before that yields an item: the cell is then taken, and the item
/// placed there when it is known and its tier is allowed at the level.
pub fn spawn_items(
    items: &ItemRegistry,
    table: &SpawnTable,
    map: &TileMap,
    quest_items: &Vec<(i32, i32, String)>,
    level: u32,
    rng: &mut ChaCha8Rng,
) -> (r: Vec<(i32, i32, String)>)
    requires
        map.wf(),
        map.tiles@.len() > 0,
        distinct_cells(cells_of(quest_items@)),
    ensures
        r@.len() >= quest_items@.len(),
        r@.subrange(0, quest_items@.len() as int) == quest_items@,
        quest_items@.len() >= 3 ==> r@.len() == quest_items@.len(),
        forall|k: int| quest_items@.len() <= k < r@.len() ==> item_placed(items, *table, map, level, #[trigger] r@[k]),
        distinct_cells(cells_of(r@)),
{
    let mut r: Vec<(i32, i32, String)> = Vec::new();
    let mut used: Vec<(i32, i32)> = Vec::new();
    let mut q: usize = 0;
    while q < quest_items.len()
        invariant
            q <= quest_items@.len(),
            r@ == quest_items@.take(q as int),
            used@ == cells_of(r@),
        decreases quest_items@.len() - q,
    {
        let e = &quest_items[q];
        used.push((e.0, e.1));
        r.push((e.0, e.1, e.2.clone()));
        proof {
            assert(r@ =~= quest_items@.take(q + 1));
            assert(used@ =~= cells_of(r@));
        }
        q = q + 1;
    }
    proof {
        assert(quest_items@.take(quest_items@.len() as int) =~= quest_items@);
    }
    if r.len() >= 3 {
        return r;
    }
    let threshold = tier_threshold_exec(level);
    let n = map.tiles.len();
    let mut s: usize = 0;
    while s < table.items.len()
        invariant
            map.wf(),
            n == map.tiles@.len(),
            n > 0,
            threshold == tier_threshold(level),
            s <= table.items@.len(),
            r@.len() >= quest_items@.len(),
            r@.subrange(0, quest_items@.len() as int) == quest_items@,
            used@ == cells_of(r@) + used@.subrange(r@.len() as int, used@.len() as int),
            used@.len() >= r@.len(),
            distinct_cells(used@),
            forall|k: int| quest_items@.len() <= k < r@.len() ==> item_placed(items, *table, map, level, #[trigger] r@[k]),
        decreases table.items@.len() - s,
    {
        let spawn = &table.items[s];
        let mut t: u32 = 0;
        while t < spawn.weight
            invariant
                map.wf(),
                n == map.tiles@.len(),
                n > 0,
                threshold == tier_threshold(level),
                s < table.items@.len(),
                *spawn == table.items@[s as int],
                t <= spawn.weight,
                r@.len() >= quest_items@.len(),
                r@.subrange(0, quest_items@.len() as int) == quest_items@,
                used@ == cells_of(r@) + used@.subrange(r@.len() as int, used@.len() as int),
                used@.len() >= r@.len(),
                distinct_cells(used@),
                forall|k: int| quest_items@.len() <= k < r@.len() ==> item_placed(items, *table, map, level, #[trigger] r@[k]),
            decreases spawn.weight - t,
        {
            let mut attempts: u32 = 0;
            while attempts < 10
                invariant
                    map.wf(),
                    n == map.tiles@.len(),
                    n > 0,
                    threshold == tier_threshold(level),
                    s < table.items@.len(),
                    *spawn == table.items@[s as int],
                    t < spawn.weight,
                    attempts <= 10,
                    r@.len() >= quest_items@.len(),
                    r@.subrange(0, quest_items@.len() as int) == quest_items@,
                    used@ == cells_of(r@) + used@.subrange(r@.len() as int, used@.len() as int),
                    used@.len() >= r@.len(),
                    distinct_cells(used@),
                    forall|k: int| quest_items@.len() <= k < r@.len() ==> item_placed(items, *table, map, level, #[trigger] r@[k]),
                decreases 10 - attempts,
            {
                let idx = gen_range_usize(rng, 0, n);
                if map.tiles[idx].walkable() {
                    let p = cell_of_index(map, idx);
                    if !contains_cell(&used, p) {
                        let ghost old_used = used@;
                        let ghost old_r = r@;
                        match get_item_def(items, spawn.id.as_str()) {
                            Some(def) => {
                                if def.tier <= threshold {
                                    // The new item goes before the cells taken without an item.
                                    let k = r.len();
                                    used.insert(k, p);
                                    r.push((p.0, p.1, spawn.id.clone()));
                                    proof {
                                        let e = r@[k as int];
                                        assert(e.2@ == spawn.id@);
                                        assert(table.items@[s as int].id@ == e.2@);
                                        assert(item_placed(items, *table, map, level, e));
                                        assert(cells_of(r@) =~= cells_of(old_r).push(p));
                                        assert(used@ =~= cells_of(r@) + used@.subrange(r@.len() as int, used@.len() as int));
                                        assert(r@.subrange(0, quest_items@.len() as int) =~= old_r.subrange(0, quest_items@.len() as int));
                                        assert forall|a: int, b: int| 0 <= a < b < used@.len() implies used@[a] != used@[b] by {
                                            if a < k && b < k {
                                                assert(used@[a] == old_used[a] && used@[b] == old_used[b]);
                                            } else if a < k && b == k {
                                                assert(used@[a] == old_used[a]);
                                                assert(old_used.contains(used@[a]));
                                            } else if a < k {
                                                assert(used@[a] == old_used[a] && used@[b] == old_used[b - 1]);
                                            } else if a == k {
                                                assert(used@[b] == old_used[b - 1]);
                                                assert(old_used.contains(old_used[b - 1]));
                                            } else {
                                                assert(used@[a] == old_used[a - 1] && used@[b] == old_used[b - 1]);
                                            }
                                        }
                                        assert forall|j: int| quest_items@.len() <= j < r@.len() implies item_placed(
                                            items,
                                            *table,
                                            map,
                                            level,
                                            #[trigger] r@[j],
                                        ) by {
                                            if j < k {
                                                assert(r@[j] == old_r[j]);
                                            }
                                        }
                                    }
                                    break;
                                }
                            },
                            None => {},
                        }
                        used.push(p);
                        proof {
                            assert(used@.subrange(r@.len() as int, used@.len() as int) =~= old_used.subrange(
                                r@.len() as int,
                                old_used.len() as int,
                            ).push(p));
                            assert(used@ =~= cells_of(r@) + used@.subrange(r@.len() as int, used@.len() as int));
                            assert forall|a: int, b: int| 0 <= a < b < used@.len() implies used@[a] != used@[b] by {
                                if b < old_used.len() {
                                    assert(used@[a] == old_used[a] && used@[b] == old_used[b]);
                                } else {
                                    assert(used@[a] == old_used[a]);
                                    assert(old_used.contains(used@[a]));
                                }
                            }
                        }
                    }
                }
                attempts = attempts + 1;
            }
            t = t + 1;
        }
        s = s + 1;
    }
    proof {
        assert(cells_of(r@) =~= used@.subrange(0, r@.len() as int));
        assert forall|a: int, b: int| 0 <= a < b < cells_of(r@).len() implies cells_of(r@)[a] != cells_of(r@)[b] by {
            assert(cells_of(r@)[a] == used@[a] && cells_of(r@)[b] == used@[b]);
        }
    }
    r
}

/// A wandering NPC placement: on a walkable cell at least 8 from the arrival
/// point, with an id the table lists at positive weight.
pub open spec fn npc_placed(table: SpawnTable, walkable: Seq<(i32, i32)>, spawn: (i32, i32), e: (i32, i32, String)) -> bool {
    &&& walkable.contains((e.0, e.1))
    &&& far_from((e.0, e.1), spawn, 8)
    &&& exists|i: int| 0 <= i < table.npcs@.len() && table.npcs@[i].weight > 0 && #[trigger] table.npcs@[i].id@ == e.2@
}

/// The wandering NPCs of a tile: each table entry of positive weight `w`
/// comes with chance `min(w, 10)` in 10; it then takes the cell at a drawn
/// position among the walkable cells at least 8 from the arrival point, and
/// is left out when the draw falls past their end.
pub fn spawn_npcs(table: &SpawnTable, walkable: &Vec<(i32, i32)>, spawn: (i32, i32), rng: &mut ChaCha8Rng) -> (r: Vec<
    (i32, i32, String),
>)
    ensures
        r@.len() <= table.npcs@.len(),
        forall|k: int| 0 <= k < r@.len() ==> npc_placed(*table, walkable@, spawn, #[trigger] r@[k]),
        far_cells(walkable@, spawn, 8).len() == 0 ==> r@.len() == 0,
{
    let far = far_positions(walkable, spawn, 8);
    proof {
        lemma_far_cells(walkable@, spawn, 8);
    }
    let draw_len = if walkable.len() > 0 { walkable.len() } else { 1 };
    let mut r: Vec<(i32, i32, String)> = Vec::new();
    let mut s: usize = 0;
    while s < table.npcs.len()
        invariant
            s <= table.npcs@.len(),
            r@.len() <= s,
            draw_len > 0,
            far@ == far_cells(walkable@, spawn, 8),
            forall|j: int| 0 <= j < far@.len() ==> walkable@.contains(#[trigger] far@[j]) && far_from(far@[j], spawn, 8),
            forall|k: int| 0 <= k < r@.len() ==> npc_placed(*table, walkable@, spawn, #[trigger] r@[k]),
            far@.len() == 0 ==> r@.len() == 0,
        decreases table.npcs@.len() - s,
    {
        let entry = &table.npcs[s];
        if entry.weight > 0 {
            let num = if entry.weight < 10 { entry.weight } else { 10 };
            if gen_ratio(rng, num, 10) {
                let i = gen_range_usize(rng, 0, draw_len);
                if i < far.len() {
                    let p = far[i];
                    let ghost before = r@;
                    r.push((p.0, p.1, entry.id.clone()));
                    proof {
                        let e = r@[before.len() as int];
                        assert(walkable@.contains(far@[i as int]) && far_from(far@[i as int], spawn, 8));
                        assert(table.npcs@[s as int].id@ == e.2@);
                        assert(npc_placed(*table, walkable@, spawn, e));
                        assert forall|k: int| 0 <= k < r@.len() implies npc_placed(*table, walkable@, spawn, #[trigger] r@[k]) by {
                            if k < before.len() {
                                assert(r@[k] == before[k]);
                            }
                        }
                    }
                }
            }
        }
        s = s + 1;
    }
    r
}

/// Whether the cell is one of `ps`.
fn contains_cell(ps: &Vec<(i32, i32)>, p: (i32, i32)) -> (b: bool)
    ensures
        b == ps@.contains(p),
{
    let mut i: usize = 0;
    while i < ps.len()
        invariant
            i <= ps@.len(),
            forall|j: int| 0 <= j < i ==> ps@[j] != p,
        decreases ps@.len() - i,
    {
        if ps[i].0 == p.0 && ps[i].1 == p.1 {
            return true;
        }
        i = i + 1;
    }
    false
}

} // verus!
