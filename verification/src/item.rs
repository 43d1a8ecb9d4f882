//! Item definitions, the registry they are looked up in, and items lying on
//! the map.

use vstd::prelude::*;

verus! {

/// A conditional effect an item has on its bearer.
#[derive(Clone, Debug)]
pub struct EntityEffect {
    pub condition: String,
    pub effect: String,
}

/// The light an item gives off.
#[derive(Clone, Copy, Debug)]
pub struct LightSource {
    pub radius: i32,
    pub intensity: u8,
}

/// Everything the game knows about a kind of item.
#[derive(Clone, Debug)]
pub struct ItemDef {
    pub id: String,
    pub name: String,
    pub glyph: String,
    pub description: String,
    pub value: u32,
    pub weight: u32,
    pub usable: bool,
    pub heal: i32,
    pub reveals_map: bool,
    pub suppresses_adaptations: bool,
    pub breaks_walls: bool,
    pub reveals_storm_path: bool,
    pub reduces_refraction: u32,
    pub grants_invisibility: bool,
    pub reveals_storm_timing: bool,
    pub reveals_locations: bool,
    pub stackable: bool,
    pub grows_over_time: bool,
    pub armor_value: i32,
    pub equip_slot: Option<String>,
    pub effects: Vec<EntityEffect>,
    pub hidden_properties: Vec<String>,
    pub pickup: bool,
    pub light_source: Option<LightSource>,
    /// Rarity tier, 1 (common) and up.
    pub tier: u32,
}

/// The item definitions, in the order they were loaded. A later definition
/// with an id already seen replaces the earlier one.
pub struct ItemRegistry {
    pub defs: Vec<ItemDef>,
}

/// Position of the last definition with the given id.
pub open spec fn last_item_with(defs: Seq<ItemDef>, id: Seq<char>) -> Option<int>
    decreases defs.len(),
{
    if defs.len() == 0 {
        None
    } else if defs.last().id@ == id {
        Some(defs.len() - 1)
    } else {
        last_item_with(defs.drop_last(), id)
    }
}

proof fn lemma_last_item_with(defs: Seq<ItemDef>, id: Seq<char>)
    ensures
        last_item_with(defs, id) matches Some(i) ==> 0 <= i < defs.len() && defs[i].id@ == id && forall|j: int|
            i < j < defs.len() ==> defs[j].id@ != id,
        last_item_with(defs, id) is None ==> forall|j: int| 0 <= j < defs.len() ==> defs[j].id@ != id,
    decreases defs.len(),
{
    if defs.len() > 0 {
        let rest = defs.drop_last();
        lemma_last_item_with(rest, id);
        assert forall|j: int| 0 <= j < rest.len() implies rest[j] == defs[j] by {}
    }
}

/// The definition registered under `id`.
pub fn get_item_def<'a>(registry: &'a ItemRegistry, id: &str) -> (r: Option<&'a ItemDef>)
    ensures
        match last_item_with(registry.defs@, id@) {
            Some(i) => r == Some(&registry.defs@[i]),
            None => r is None,
        },
{
    let key = String::from_str(id);
    let mut i = registry.defs.len();
    assert(registry.defs@.subrange(0, i as int) =~= registry.defs@);
    while i > 0
        invariant
            i <= registry.defs@.len(),
            key@ == id@,
            last_item_with(registry.defs@, id@) == last_item_with(registry.defs@.subrange(0, i as int), id@),
        decreases i,
    {
        let ghost prefix = registry.defs@.subrange(0, i as int);
        if registry.defs[i - 1].id == key {
            assert(prefix.last() == registry.defs@[i - 1]);
            return Some(&registry.defs[i - 1]);
        }
        proof {
            assert(prefix.drop_last() =~= registry.defs@.subrange(0, i - 1));
        }
        i = i - 1;
    }
    None
}

/// Some string in `ids` reads `s`.
pub open spec fn lists(ids: Seq<String>, s: Seq<char>) -> bool {
    exists|j: int| 0 <= j < ids.len() && (#[trigger] ids[j])@ == s
}

/// One of the first `n` definitions has id `s`.
pub open spec fn defines(defs: Seq<ItemDef>, n: int, s: Seq<char>) -> bool {
    exists|k: int| 0 <= k < n && (#[trigger] defs[k]).id@ == s
}

/// No two strings in `ids` read the same.
pub open spec fn distinct_strs(ids: Seq<String>) -> bool {
    forall|a: int, b: int| 0 <= a < b < ids.len() ==> (#[trigger] ids[a])@ != (#[trigger] ids[b])@
}

/// Whether some string in `ids` reads `id`.
pub fn contains_str(ids: &Vec<String>, id: &String) -> (b: bool)
    ensures
        b == lists(ids@, id@),
{
    let mut j: usize = 0;
    while j < ids.len()
        invariant
            j <= ids@.len(),
            forall|t: int| 0 <= t < j ==> (#[trigger] ids@[t])@ != id@,
        decreases ids@.len() - j,
    {
        if ids[j] == *id {
            return true;
        }
        j = j + 1;
    }
    false
}

/// The registered item ids, each once.
pub fn all_item_ids(registry: &ItemRegistry) -> (ids: Vec<String>)
    ensures
        distinct_strs(ids@),
        forall|i: int| 0 <= i < registry.defs@.len() ==> lists(ids@, (#[trigger] registry.defs@[i]).id@),
        forall|j: int| 0 <= j < ids@.len() ==> defines(registry.defs@, registry.defs@.len() as int, (#[trigger] ids@[j])@),
{
    let mut ids: Vec<String> = Vec::new();
    let mut i: usize = 0;
    while i < registry.defs.len()
        invariant
            i <= registry.defs@.len(),
            distinct_strs(ids@),
            forall|k: int| 0 <= k < i ==> lists(ids@, (#[trigger] registry.defs@[k]).id@),
            forall|j: int| 0 <= j < ids@.len() ==> defines(registry.defs@, i as int, (#[trigger] ids@[j])@),
        decreases registry.defs@.len() - i,
    {
        let ghost before = ids@;
        let present = contains_str(&ids, &registry.defs[i].id);
        if !present {
            ids.push(registry.defs[i].id.clone());
            proof {
                let n = before.len() as int;
                assert(ids@[n]@ == registry.defs@[i as int].id@);
                assert forall|a: int, b: int| 0 <= a < b < ids@.len() implies (#[trigger] ids@[a])@ != (#[trigger] ids@[b])@ by {
                    if b == n {
                        assert(ids@[a] == before[a]);
                    } else {
                        assert(ids@[a] == before[a]);
                        assert(ids@[b] == before[b]);
                    }
                }
                assert forall|k: int| 0 <= k < i + 1 implies lists(ids@, (#[trigger] registry.defs@[k]).id@) by {
                    if k < i {
                        let j2 = choose|j2: int| 0 <= j2 < before.len() && (#[trigger] before[j2])@ == registry.defs@[k].id@;
                        assert(ids@[j2] == before[j2]);
                    } else {
                        assert(ids@[n]@ == registry.defs@[k].id@);
                    }
                }
                assert forall|j2: int| 0 <= j2 < ids@.len() implies defines(registry.defs@, i + 1, (#[trigger] ids@[j2])@) by {
                    if j2 < n {
                        assert(ids@[j2] == before[j2]);
                        assert(defines(registry.defs@, i as int, before[j2]@));
                        let k = choose|k: int| 0 <= k < i && (#[trigger] registry.defs@[k]).id@ == before[j2]@;
                        assert(registry.defs@[k].id@ == ids@[j2]@);
                    } else {
                        assert(registry.defs@[i as int].id@ == ids@[j2]@);
                    }
                }
            }
        } else {
            proof {
                assert forall|j2: int| 0 <= j2 < ids@.len() implies defines(registry.defs@, i + 1, (#[trigger] ids@[j2])@) by {
                    assert(defines(registry.defs@, i as int, ids@[j2]@));
                    let k = choose|k: int| 0 <= k < i && (#[trigger] registry.defs@[k]).id@ == ids@[j2]@;
                    assert(registry.defs@[k].id@ == ids@[j2]@);
                }
            }
        }
        i = i + 1;
    }
    ids
}

/// An item lying on the map.
#[derive(Clone)]
pub struct Item {
    pub x: i32,
    pub y: i32,
    pub id: String,
}

/// The first character of a glyph, or `?` for an empty glyph.
pub open spec fn glyph_char(glyph: Seq<char>) -> char {
    if glyph.len() > 0 { glyph[0] } else { '?' }
}

impl Item {
    pub fn new(x: i32, y: i32, id: &str) -> (it: Self)
        ensures
            it.x == x,
            it.y == y,
            it.id@ == id@,
    {
        Self { x, y, id: String::from_str(id) }
    }

    /// The item's definition.
    pub fn def<'a>(&self, registry: &'a ItemRegistry) -> (r: Option<&'a ItemDef>)
        ensures
            match last_item_with(registry.defs@, self.id@) {
                Some(i) => r == Some(&registry.defs@[i]),
                None => r is None,
            },
    {
        get_item_def(registry, self.id.as_str())
    }

    /// The first character of the item's glyph; `?` for an unknown item.
    pub fn glyph(&self, registry: &ItemRegistry) -> (c: char)
        ensures
            c == match last_item_with(registry.defs@, self.id@) {
                Some(i) => glyph_char(registry.defs@[i].glyph@),
                None => '?',
            },
    {
        match self.def(registry) {
            Some(d) => {
                let g = d.glyph.as_str();
                if g.unicode_len() > 0 {
                    g.get_char(0)
                } else {
                    '?'
                }
            },
            None => '?',
        }
    }

    /// The item's name; "Unknown" for an unknown item.
    pub fn name(&self, registry: &ItemRegistry) -> (s: String)
        ensures
            s@ == match last_item_with(registry.defs@, self.id@) {
                Some(i) => registry.defs@[i].name@,
                None => "Unknown"@,
            },
    {
        match self.def(registry) {
            Some(d) => d.name.clone(),
            None => String::from_str("Unknown"),
        }
    }
}

} // verus!
