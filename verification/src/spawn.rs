//! Per-biome spawn tables and the weighted draws made from them.

use vstd::prelude::*;
use rand_chacha::ChaCha8Rng;
use crate::map::Biome;
use crate::item::{ItemRegistry, get_item_def, last_item_with};
use crate::weighted::{weight_sum, pick_from, law_roll_lands, lemma_pick_in_range, total_weight, pick_by_roll};
use crate::rng::gen_range_u32;

verus! {

/// An entry of a spawn table.
#[derive(Debug)]
pub struct WeightedSpawn {
    pub id: String,
    pub weight: u32,
    /// "first", "last" or "late" (the last two rooms).
    pub room: Option<String>,
    pub min_level: u32,
    pub max_level: u32,
}

impl Clone for WeightedSpawn {
    fn clone(&self) -> (c: Self)
        ensures
            c == *self,
    {
        WeightedSpawn {
            id: self.id.clone(),
            weight: self.weight,
            room: match &self.room {
                Some(r) => Some(r.clone()),
                None => None,
            },
            min_level: self.min_level,
            max_level: self.max_level,
        }
    }
}

/// What may spawn in a biome.
#[derive(Debug, Clone)]
pub struct SpawnTable {
    pub items: Vec<WeightedSpawn>,
    pub enemies: Vec<WeightedSpawn>,
    pub npcs: Vec<WeightedSpawn>,
}

/// The default table and the biomes that override it.
#[derive(Debug)]
pub struct SpawnTables {
    pub default: SpawnTable,
    pub saltflat: Option<SpawnTable>,
    pub oasis: Option<SpawnTable>,
    pub ruins: Option<SpawnTable>,
    pub scrubland: Option<SpawnTable>,
}

/// The table a biome spawns from: its own, or the default.
pub open spec fn table_for(tables: SpawnTables, biome: Biome) -> SpawnTable {
    let own = match biome {
        Biome::Saltflat => tables.saltflat,
        Biome::Oasis => tables.oasis,
        Biome::Ruins => tables.ruins,
        Biome::Scrubland => tables.scrubland,
        _ => None,
    };
    match own {
        Some(t) => t,
        None => tables.default,
    }
}

/// The spawn table of a biome; biomes without one use the default.
pub fn get_biome_spawn_table<'a>(tables: &'a SpawnTables, biome: &Biome) -> (t: &'a SpawnTable)
    ensures
        *t == table_for(*tables, *biome),
{
    let own = match biome {
        Biome::Saltflat => &tables.saltflat,
        Biome::Oasis => &tables.oasis,
        Biome::Ruins => &tables.ruins,
        Biome::Scrubland => &tables.scrubland,
        _ => {
            return &tables.default;
        },
    };
    match own {
        Some(t) => t,
        None => &tables.default,
    }
}

/// The weights of the entries, in order.
pub open spec fn spawn_weights(spawns: Seq<WeightedSpawn>) -> Seq<u32> {
    spawns.map_values(|s: WeightedSpawn| s.weight)
}

fn weights_of(spawns: &Vec<WeightedSpawn>) -> (ws: Vec<u32>)
    ensures
        ws@ == spawn_weights(spawns@),
{
    let mut ws: Vec<u32> = Vec::new();
    let mut i: usize = 0;
    while i < spawns.len()
        invariant
            i <= spawns@.len(),
            ws@ == spawn_weights(spawns@).subrange(0, i as int),
        decreases spawns@.len() - i,
    {
        ws.push(spawns[i].weight);
        i = i + 1;
        assert(ws@ =~= spawn_weights(spawns@).subrange(0, i as int));
    }
    assert(spawn_weights(spawns@).subrange(0, i as int) =~= spawn_weights(spawns@));
    ws
}

/// The id of the entry that `roll` lands on.
pub fn weighted_pick_by_roll<'a>(spawns: &'a Vec<WeightedSpawn>, roll: u32) -> (r: Option<&'a str>)
    ensures
        match pick_from(spawn_weights(spawns@), roll as int) {
            Some(i) => r matches Some(s) && s@ == spawns@[i].id@,
            None => r is None,
        },
{
    let ws = weights_of(spawns);
    proof {
        lemma_pick_in_range(ws@, roll as int);
    }
    match pick_by_roll(&ws, roll) {
        Some(i) => Some(spawns[i].id.as_str()),
        None => None,
    }
}

/// An entry drawn by weight; `None` when the weights sum to zero.
pub fn weighted_pick<'a>(spawns: &'a Vec<WeightedSpawn>, rng: &mut ChaCha8Rng) -> (r: Option<&'a str>)
    requires
        weight_sum(spawn_weights(spawns@)) <= u32::MAX,
    ensures
        weight_sum(spawn_weights(spawns@)) == 0 ==> r is None,
        weight_sum(spawn_weights(spawns@)) > 0 ==> (r matches Some(s) && exists|i: int|
            0 <= i < spawns@.len() && spawns@[i].weight > 0 && #[trigger] spawns@[i].id@ == s@),
{
    let ws = weights_of(spawns);
    let total = total_weight(&ws);
    if total == 0 {
        return None;
    }
    let roll = gen_range_u32(rng, 0, total);
    proof {
        law_roll_lands(ws@, roll as int);
    }
    let r = weighted_pick_by_roll(spawns, roll);
    proof {
        let i = pick_from(ws@, roll as int)->0;
        assert(spawns@[i].weight == ws@[i]);
    }
    r
}

/// The highest item tier allowed at a dungeon level.
pub open spec fn tier_threshold(level: u32) -> u32 {
    if level == 1 {
        1
    } else if 2 <= level <= 3 {
        2
    } else if 4 <= level <= 6 {
        3
    } else if 7 <= level <= 8 {
        4
    } else if 9 <= level <= 10 {
        5
    } else {
        1
    }
}

/// The tier of an item: its definition's, or 1 for an unknown item.
pub open spec fn item_tier(items: &ItemRegistry, id: Seq<char>) -> u32 {
    match last_item_with(items.defs@, id) {
        Some(i) => items.defs@[i].tier,
        None => 1,
    }
}

/// The entry may spawn at `level`: the level is in its range and, for items,
/// the item's tier is allowed at that level.
pub open spec fn spawn_allowed(items: &ItemRegistry, s: WeightedSpawn, level: u32, is_item: bool) -> bool {
    &&& s.min_level <= level <= s.max_level
    &&& is_item ==> item_tier(items, s.id@) <= tier_threshold(level)
}

/// The entries allowed at `level`, in order.
pub open spec fn allowed_spawns(items: &ItemRegistry, spawns: Seq<WeightedSpawn>, level: u32, is_item: bool) -> Seq<WeightedSpawn>
    decreases spawns.len(),
{
    if spawns.len() == 0 {
        spawns
    } else {
        let rest = allowed_spawns(items, spawns.drop_last(), level, is_item);
        if spawn_allowed(items, spawns.last(), level, is_item) {
            rest.push(spawns.last())
        } else {
            rest
        }
    }
}

/// The entries allowed at a level are exactly the entries of the table whose
/// level range holds it and, for items, whose tier the level allows; they
/// keep the table's order, so there are never more of them than entries.
pub proof fn law_allowed_spawns(items: &ItemRegistry, spawns: Seq<WeightedSpawn>, level: u32, is_item: bool)
    ensures
        allowed_spawns(items, spawns, level, is_item).len() <= spawns.len(),
        forall|i: int| 0 <= i < allowed_spawns(items, spawns, level, is_item).len() ==> {
            let s = #[trigger] allowed_spawns(items, spawns, level, is_item)[i];
            &&& spawns.contains(s)
            &&& s.min_level <= level <= s.max_level
            &&& is_item ==> item_tier(items, s.id@) <= tier_threshold(level)
        },
        forall|j: int| 0 <= j < spawns.len() && (#[trigger] spawns[j]).min_level <= level <= spawns[j].max_level && (is_item
            ==> item_tier(items, spawns[j].id@) <= tier_threshold(level)) ==> allowed_spawns(items, spawns, level, is_item).contains(
            spawns[j],
        ),
    decreases spawns.len(),
{
    if spawns.len() > 0 {
        let rest = spawns.drop_last();
        law_allowed_spawns(items, rest, level, is_item);
        let a = allowed_spawns(items, spawns, level, is_item);
        let ar = allowed_spawns(items, rest, level, is_item);
        assert forall|i: int| 0 <= i < a.len() implies spawns.contains(#[trigger] a[i]) by {
            if i < ar.len() {
                assert(a[i] == ar[i]);
                let j = choose|j: int| 0 <= j < rest.len() && rest[j] == ar[i];
                assert(spawns[j] == rest[j]);
            } else {
                assert(spawns[spawns.len() - 1] == a[i]);
            }
        }
        assert forall|j: int| 0 <= j < spawns.len() && (#[trigger] spawns[j]).min_level <= level <= spawns[j].max_level && (
        is_item ==> item_tier(items, spawns[j].id@) <= tier_threshold(level)) implies a.contains(spawns[j]) by {
            if j < rest.len() {
                assert(rest[j] == spawns[j]);
                let i = choose|i: int| 0 <= i < ar.len() && ar[i] == rest[j];
                assert(a[i] == ar[i]);
            } else {
                assert(a[a.len() - 1] == spawns[j]);
            }
        }
    }
}

/// Deeper levels allow higher tiers: tier 1 at level 1, one more at levels
/// 2, 4, 7 and 9, up to tier 5 from level 9 to 10; outside levels 1 to 10
/// only tier 1.
pub proof fn law_tier_threshold(level: u32)
    ensures
        1 <= level <= 10 ==> tier_threshold(level) == 1 + count_at_least(level, 2) + count_at_least(level, 4)
            + count_at_least(level, 7) + count_at_least(level, 9),
        (level == 0 || level > 10) ==> tier_threshold(level) == 1,
{
}

/// One when `level` is at least `bound`, zero otherwise.
pub open spec fn count_at_least(level: u32, bound: u32) -> int {
    if level >= bound { 1 } else { 0 }
}

/// The highest item tier allowed at a dungeon level.
pub fn tier_threshold_exec(level: u32) -> (t: u32)
    ensures
        t == tier_threshold(level),
{
    if level == 1 {
        1
    } else if 2 <= level && level <= 3 {
        2
    } else if 4 <= level && level <= 6 {
        3
    } else if 7 <= level && level <= 8 {
        4
    } else if 9 <= level && level <= 10 {
        5
    } else {
        1
    }
}

/// The entries allowed at `level`.
pub fn filter_spawns(items: &ItemRegistry, spawns: &Vec<WeightedSpawn>, level: u32, is_item: bool) -> (v: Vec<WeightedSpawn>)
    ensures
        v@ == allowed_spawns(items, spawns@, level, is_item),
{
    let mut v: Vec<WeightedSpawn> = Vec::new();
    let mut i: usize = 0;
    while i < spawns.len()
        invariant
            i <= spawns@.len(),
            v@ == allowed_spawns(items, spawns@.subrange(0, i as int), level, is_item),
        decreases spawns@.len() - i,
    {
        let s = &spawns[i];
        let level_ok = level >= s.min_level && level <= s.max_level;
        let ok = if !is_item {
            level_ok
        } else {
            let tier = match get_item_def(items, s.id.as_str()) {
                Some(d) => d.tier,
                None => 1,
            };
            level_ok && tier <= tier_threshold_exec(level)
        };
        proof {
            let pre = spawns@.subrange(0, i + 1);
            assert(pre.drop_last() =~= spawns@.subrange(0, i as int));
            assert(pre.last() == spawns@[i as int]);
        }
        if ok {
            v.push(spawns[i].clone());
        }
        i = i + 1;
    }
    assert(spawns@.subrange(0, i as int) =~= spawns@);
    v
}

/// An entry allowed at `level` drawn by weight; `None` when the allowed
/// entries' weights sum to zero.
pub fn weighted_pick_by_level_and_tier(
    items: &ItemRegistry,
    spawns: &Vec<WeightedSpawn>,
    level: u32,
    rng: &mut ChaCha8Rng,
    is_item: bool,
) -> (r: Option<String>)
    requires
        weight_sum(spawn_weights(allowed_spawns(items, spawns@, level, is_item))) <= u32::MAX,
    ensures
        ({
            let valid = allowed_spawns(items, spawns@, level, is_item);
            &&& weight_sum(spawn_weights(valid)) == 0 ==> r is None
            &&& weight_sum(spawn_weights(valid)) > 0 ==> (r matches Some(s) && exists|i: int|
                0 <= i < valid.len() && valid[i].weight > 0 && #[trigger] valid[i].id@ == s@)
        }),
{
    let valid = filter_spawns(items, spawns, level, is_item);
    match weighted_pick(&valid, rng) {
        Some(s) => Some(String::from_str(s)),
        None => None,
    }
}

} // verus!
