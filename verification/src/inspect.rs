//! What the player is shown on inspecting an item, and where things lie
//! relative to the player.

use vstd::prelude::*;
use crate::item::{ItemDef, ItemRegistry, get_item_def, last_item_with, lists, contains_str};
use crate::weapon::{WeaponDef, WeaponRegistry, get_weapon_def, last_weapon_with};
use crate::item::Item;
use crate::map::{TileMap, cell_index};
use crate::light_defs::{LightsData, get_light_def, first_light_with};
use crate::text::{push_decimal, push_char};
use crate::structure_library::chars_of;
use crate::text::{decimal, decimal_string};

verus! {

/// Item details as the inspect screen lists them.
#[derive(Debug, Clone)]
pub struct ItemInfo {
    pub name: String,
    pub description: String,
    pub item_type: String,
    /// Property names with their displayed values.
    pub stats: Vec<(String, String)>,
}

/// The stats as character sequences.
pub open spec fn stats_view(stats: Seq<(String, String)>) -> Seq<(Seq<char>, Seq<char>)> {
    stats.map_values(|p: (String, String)| (p.0@, p.1@))
}

/// A stat line, shown when its condition holds and the item does not hide it.
pub open spec fn stat_line(hidden: Seq<String>, key: Seq<char>, shown: bool, val: Seq<char>) -> Seq<(Seq<char>, Seq<char>)> {
    if shown && !lists(hidden, key) {
        seq![(key, val)]
    } else {
        Seq::empty()
    }
}

/// The stat lines of an item, in display order.
pub open spec fn item_stats(d: ItemDef) -> Seq<(Seq<char>, Seq<char>)> {
    let h = d.hidden_properties@;
    stat_line(h, "value"@, d.value > 0, decimal(d.value as nat))
        + stat_line(h, "weight"@, d.weight > 0, decimal(d.weight as nat))
        + stat_line(h, "heal"@, d.heal > 0, "+"@ + decimal(d.heal as nat) + " HP"@)
        + stat_line(h, "armor_value"@, d.armor_value > 0, "+"@ + decimal(d.armor_value as nat))
        + stat_line(h, "reduces_refraction"@, d.reduces_refraction > 0, "-"@ + decimal(d.reduces_refraction as nat))
        + stat_line(h, "reveals_map"@, d.reveals_map, "Reveals map"@)
        + stat_line(h, "suppresses_adaptations"@, d.suppresses_adaptations, "Hides adaptations"@)
        + stat_line(h, "breaks_walls"@, d.breaks_walls, "Breaks walls"@)
        + stat_line(h, "equip_slot"@, d.equip_slot is Some, match d.equip_slot {
            Some(s) => s@,
            None => Seq::empty(),
        })
}

/// The kind of item shown: equipment, consumable, or plain item.
pub open spec fn item_kind(d: ItemDef) -> Seq<char> {
    if d.equip_slot is Some {
        "Equipment"@
    } else if d.usable {
        "Consumable"@
    } else {
        "Item"@
    }
}

/// The inspect details of an item definition.
pub open spec fn item_info_matches(info: ItemInfo, d: ItemDef) -> bool {
    &&& info.name@ == d.name@
    &&& info.description@ == d.description@
    &&& info.item_type@ == item_kind(d)
    &&& stats_view(info.stats@) == item_stats(d)
}

fn add_stat(stats: &mut Vec<(String, String)>, hidden: &Vec<String>, key: &str, shown: bool, val: String)
    ensures
        stats_view(final(stats)@) == stats_view(old(stats)@) + stat_line(hidden@, key@, shown, val@),
{
    let k = String::from_str(key);
    if shown && !contains_str(hidden, &k) {
        let ghost before = stats@;
        stats.push((k, val));
        proof {
            assert(stats_view(stats@) =~= stats_view(before) + seq![(key@, val@)]);
        }
    } else {
        proof {
            assert(stats_view(stats@) =~= stats_view(stats@) + Seq::<(Seq<char>, Seq<char>)>::empty());
        }
    }
}

/// `prefix`, then the decimal digits of `n`, then `suffix`.
fn framed_number(prefix: &str, n: u32, suffix: &str) -> (s: String)
    ensures
        s@ == prefix@ + decimal(n as nat) + suffix@,
{
    let mut s = String::from_str(prefix);
    s.append(decimal_string(n).as_str());
    s.append(suffix);
    s
}

/// The four stat lines of a weapon: damage range, accuracy, range, AP cost.
pub open spec fn weapon_stats(w: WeaponDef) -> Seq<(Seq<char>, Seq<char>)> {
    seq![
        ("Damage"@, decimal(w.damage_min as nat) + "-"@ + decimal(w.damage_max as nat)),
        ("Accuracy"@, decimal(w.accuracy as nat) + "%"@),
        ("Range"@, decimal(w.range as nat)),
        ("AP Cost"@, decimal(w.ap_cost as nat)),
    ]
}

/// The inspect details of a weapon definition.
pub open spec fn weapon_info_matches(info: ItemInfo, w: WeaponDef) -> bool {
    &&& info.name@ == w.name@
    &&& info.description@ == w.description@
    &&& info.item_type@ == "Weapon"@
    &&& stats_view(info.stats@) == weapon_stats(w)
}

/// What inspecting `id` shows: a weapon of that id first, else an item of
/// that id, else nothing.
pub open spec fn inspected_as(weapons: Seq<WeaponDef>, items: Seq<ItemDef>, id: Seq<char>, r: Option<ItemInfo>) -> bool {
    match last_weapon_with(weapons, id) {
        Some(w) => r matches Some(info) && weapon_info_matches(info, weapons[w]),
        None => match last_item_with(items, id) {
            Some(i) => r matches Some(info) && item_info_matches(info, items[i]),
            None => r is None,
        },
    }
}

fn weapon_info(w: &WeaponDef) -> (info: ItemInfo)
    ensures
        weapon_info_matches(info, *w),
{
    let mut damage = framed_number("", w.damage_min, "-");
    damage.append(decimal_string(w.damage_max).as_str());
    let stats: Vec<(String, String)> = vec![
        (String::from_str("Damage"), damage),
        (String::from_str("Accuracy"), framed_number("", w.accuracy, "%")),
        (String::from_str("Range"), decimal_string(w.range)),
        (String::from_str("AP Cost"), decimal_string(w.ap_cost)),
    ];
    proof {
        reveal_strlit("");
        assert(stats_view(stats@) =~= weapon_stats(*w));
    }
    ItemInfo {
        name: w.name.clone(),
        description: w.description.clone(),
        item_type: String::from_str("Weapon"),
        stats,
    }
}

/// The inspect details of `id`: the weapon of that id if there is one, else
/// the item of that id, else `None`.
pub fn inspect_item(weapons: &WeaponRegistry, items: &ItemRegistry, id: &str) -> (r: Option<ItemInfo>)
    ensures
        inspected_as(weapons.defs@, items.defs@, id@, r),
{
    if let Some(w) = get_weapon_def(weapons, id) {
        return Some(weapon_info(w));
    }
    let d = match get_item_def(items, id) {
        Some(d) => d,
        None => {
            return None;
        },
    };
    let hidden = &d.hidden_properties;
    let mut stats: Vec<(String, String)> = Vec::new();
    let ghost s0 = stats_view(stats@);
    add_stat(&mut stats, hidden, "value", d.value > 0, decimal_string(d.value));
    add_stat(&mut stats, hidden, "weight", d.weight > 0, decimal_string(d.weight));
    let heal_text = if d.heal > 0 { framed_number("+", d.heal as u32, " HP") } else { String::new() };
    add_stat(&mut stats, hidden, "heal", d.heal > 0, heal_text);
    let armor_text = if d.armor_value > 0 { framed_number("+", d.armor_value as u32, "") } else { String::new() };
    add_stat(&mut stats, hidden, "armor_value", d.armor_value > 0, armor_text);
    add_stat(&mut stats, hidden, "reduces_refraction", d.reduces_refraction > 0, framed_number("-", d.reduces_refraction, ""));
    add_stat(&mut stats, hidden, "reveals_map", d.reveals_map, String::from_str("Reveals map"));
    add_stat(&mut stats, hidden, "suppresses_adaptations", d.suppresses_adaptations, String::from_str("Hides adaptations"));
    add_stat(&mut stats, hidden, "breaks_walls", d.breaks_walls, String::from_str("Breaks walls"));
    let slot = match &d.equip_slot {
        Some(s) => s.clone(),
        None => String::new(),
    };
    add_stat(&mut stats, hidden, "equip_slot", d.equip_slot.is_some(), slot);
    let item_type = if d.equip_slot.is_some() {
        String::from_str("Equipment")
    } else if d.usable {
        String::from_str("Consumable")
    } else {
        String::from_str("Item")
    };
    proof {
        assert(s0 =~= Seq::<(Seq<char>, Seq<char>)>::empty());
        reveal_strlit("");
        assert(stats_view(stats@) =~= item_stats(*d));
    }
    Some(ItemInfo { name: d.name.clone(), description: d.description.clone(), item_type, stats })
}

/// A creature on the map as look mode shows it.
pub struct EnemyView {
    pub x: i32,
    pub y: i32,
    pub hp: i32,
    pub name: String,
    /// The creature's current attitude, by its name (such as "Hostile").
    pub demeanor: String,
    /// The description of its kind, when the kind is known.
    pub description: Option<String>,
}

/// A person on the map as look mode shows them.
pub struct NpcView {
    pub x: i32,
    pub y: i32,
    pub name: String,
    /// The description of their kind, when the kind is known.
    pub description: Option<String>,
}

/// A light placed on the map.
pub struct PlacedLight {
    pub x: i32,
    pub y: i32,
    pub id: String,
}

/// The parts of the game state that inspection reads.
pub struct GameState {
    pub player_x: i32,
    pub player_y: i32,
    /// Item ids carried, in inventory order.
    pub inventory: Vec<String>,
    pub map: TileMap,
    /// Storage indices of the cells in view.
    pub visible: Vec<usize>,
    /// Storage indices of the cells seen before.
    pub revealed: Vec<usize>,
    pub enemies: Vec<EnemyView>,
    pub npcs: Vec<NpcView>,
    pub items: Vec<Item>,
    pub lights: Vec<PlacedLight>,
}

/// Position of the first living creature at the cell.
pub open spec fn enemy_index_at(es: Seq<EnemyView>, x: i32, y: i32) -> Option<int>
    decreases es.len(),
{
    if es.len() == 0 {
        None
    } else {
        match enemy_index_at(es.drop_last(), x, y) {
            Some(i) => Some(i),
            None => if es.last().x == x && es.last().y == y && es.last().hp > 0 { Some(es.len() - 1) } else { None },
        }
    }
}

/// Position of the first person at the cell.
pub open spec fn npc_index_at(ns: Seq<NpcView>, x: i32, y: i32) -> Option<int>
    decreases ns.len(),
{
    if ns.len() == 0 {
        None
    } else {
        match npc_index_at(ns.drop_last(), x, y) {
            Some(i) => Some(i),
            None => if ns.last().x == x && ns.last().y == y { Some(ns.len() - 1) } else { None },
        }
    }
}

/// Position of the first item lying at the cell.
pub open spec fn item_index_at(its: Seq<Item>, x: i32, y: i32) -> Option<int>
    decreases its.len(),
{
    if its.len() == 0 {
        None
    } else {
        match item_index_at(its.drop_last(), x, y) {
            Some(i) => Some(i),
            None => if its.last().x == x && its.last().y == y { Some(its.len() - 1) } else { None },
        }
    }
}

/// Position of the first light placed at the cell.
pub open spec fn light_index_at(ls: Seq<PlacedLight>, x: i32, y: i32) -> Option<int>
    decreases ls.len(),
{
    if ls.len() == 0 {
        None
    } else {
        match light_index_at(ls.drop_last(), x, y) {
            Some(i) => Some(i),
            None => if ls.last().x == x && ls.last().y == y { Some(ls.len() - 1) } else { None },
        }
    }
}

/// The text with ASCII capitals turned to lower case.
pub open spec fn ascii_lower(s: Seq<char>) -> Seq<char> {
    s.map_values(|c: char| if 'A' <= c <= 'Z' { ((c as u32) + 32) as char } else { c })
}

/// A description, or the fallback when there is none.
pub open spec fn desc_or(d: Option<String>, fallback: Seq<char>) -> Seq<char> {
    match d {
        Some(t) => t@,
        None => fallback,
    }
}

/// How look mode names an item kind: armour, consumable, or plain item.
pub open spec fn look_kind(d: ItemDef) -> Seq<char> {
    if d.armor_value > 0 {
        "armor"@
    } else if d.usable {
        "consumable"@
    } else {
        "item"@
    }
}

/// What the item at the cell says, if its id names an item or a weapon.
pub open spec fn item_look(its: Seq<Item>, items: Seq<ItemDef>, weapons: Seq<WeaponDef>, x: i32, y: i32) -> Option<Seq<char>> {
    match item_index_at(its, x, y) {
        None => None,
        Some(i) => match last_item_with(items, its[i].id@) {
            Some(d) => Some(items[d].name@ + " ("@ + look_kind(items[d]) + ") - "@ + items[d].description@),
            None => match last_weapon_with(weapons, its[i].id@) {
                Some(w) => Some(weapons[w].name@ + " (weapon) - "@ + weapons[w].description@),
                None => None,
            },
        },
    }
}

/// What the light at the cell says, if its id names a light.
pub open spec fn light_look(ls: Seq<PlacedLight>, data: LightsData, x: i32, y: i32) -> Option<Seq<char>> {
    match light_index_at(ls, x, y) {
        None => None,
        Some(i) => match first_light_with(data.lights@, ls[i].id@) {
            Some(d) => Some(data.lights@[d].name@ + " (light source)"@),
            None => None,
        },
    }
}

/// What look mode says of a cell: "Unknown" when it is off the map or
/// neither in view nor seen before; "You" at the player; else the first of a
/// living creature, a person, an item or weapon, a light, and the tile, with
/// "Void" when nothing applies.
pub open spec fn look_text(
    st: GameState,
    weapons: Seq<WeaponDef>,
    items: Seq<ItemDef>,
    lights: LightsData,
    x: i32,
    y: i32,
    tile_text: Option<String>,
) -> Seq<char> {
    let idx = cell_index(st.map.width as int, x as int, y as int);
    if !st.map.in_bounds_spec(x as int, y as int) || (!st.visible@.contains(idx as usize) && !st.revealed@.contains(idx as usize)) {
        "Unknown"@
    } else if x == st.player_x && y == st.player_y {
        "You"@
    } else if let Some(e) = enemy_index_at(st.enemies@, x, y) {
        let en = st.enemies@[e];
        en.name@ + " (HP: "@ + decimal(en.hp as nat) + ", "@ + ascii_lower(en.demeanor@) + ") - "@ + desc_or(en.description, "A creature"@)
    } else if let Some(n) = npc_index_at(st.npcs@, x, y) {
        st.npcs@[n].name@ + " - "@ + desc_or(st.npcs@[n].description, "A person"@)
    } else if let Some(t) = item_look(st.items@, items, weapons, x, y) {
        t
    } else if let Some(t) = light_look(st.lights@, lights, x, y) {
        t
    } else if let Some(t) = tile_text {
        t@
    } else {
        "Void"@
    }
}

/// The sign of `v`: -1, 0 or 1.
pub open spec fn sign(v: int) -> int {
    if v < 0 { -1 } else if v > 0 { 1 } else { 0 }
}

/// The compass phrase for a step with the given signs.
pub open spec fn compass(sx: int, sy: int) -> Seq<char> {
    if sx == 0 && sy == -1 {
        "to the north"@
    } else if sx == 0 && sy == 1 {
        "to the south"@
    } else if sx == -1 && sy == 0 {
        "to the west"@
    } else if sx == 1 && sy == 0 {
        "to the east"@
    } else if sx == -1 && sy == -1 {
        "to the northwest"@
    } else if sx == 1 && sy == -1 {
        "to the northeast"@
    } else if sx == -1 && sy == 1 {
        "to the southwest"@
    } else if sx == 1 && sy == 1 {
        "to the southeast"@
    } else {
        "nearby"@
    }
}

proof fn lemma_enemy_index(es: Seq<EnemyView>, x: i32, y: i32)
    ensures
        enemy_index_at(es, x, y) matches Some(i) ==> 0 <= i < es.len() && es[i].x == x && es[i].y == y && es[i].hp > 0,
    decreases es.len(),
{
    if es.len() > 0 {
        lemma_enemy_index(es.drop_last(), x, y);
    }
}

proof fn lemma_npc_index(ns: Seq<NpcView>, x: i32, y: i32)
    ensures
        npc_index_at(ns, x, y) matches Some(i) ==> 0 <= i < ns.len(),
    decreases ns.len(),
{
    if ns.len() > 0 {
        lemma_npc_index(ns.drop_last(), x, y);
    }
}

proof fn lemma_item_index(its: Seq<Item>, x: i32, y: i32)
    ensures
        item_index_at(its, x, y) matches Some(i) ==> 0 <= i < its.len(),
    decreases its.len(),
{
    if its.len() > 0 {
        lemma_item_index(its.drop_last(), x, y);
    }
}

proof fn lemma_light_index(ls: Seq<PlacedLight>, x: i32, y: i32)
    ensures
        light_index_at(ls, x, y) matches Some(i) ==> 0 <= i < ls.len(),
    decreases ls.len(),
{
    if ls.len() > 0 {
        lemma_light_index(ls.drop_last(), x, y);
    }
}

fn enemy_at(es: &Vec<EnemyView>, x: i32, y: i32) -> (r: Option<usize>)
    ensures
        match enemy_index_at(es@, x, y) {
            Some(i) => r matches Some(j) && j as int == i,
            None => r is None,
        },
{
    let mut i: usize = 0;
    while i < es.len()
        invariant
            i <= es@.len(),
            enemy_index_at(es@.take(i as int), x, y) is None,
        decreases es@.len() - i,
    {
        proof {
            assert(es@.take(i + 1).drop_last() =~= es@.take(i as int));
        }
        if es[i].x == x && es[i].y == y && es[i].hp > 0 {
            proof {
                lemma_enemy_prefix(es@, i as int + 1, x, y);
            }
            return Some(i);
        }
        i = i + 1;
    }
    proof {
        assert(es@.take(es@.len() as int) =~= es@);
    }
    None
}

proof fn lemma_enemy_prefix(es: Seq<EnemyView>, k: int, x: i32, y: i32)
    requires
        0 <= k <= es.len(),
        enemy_index_at(es.take(k), x, y) is Some,
    ensures
        enemy_index_at(es, x, y) == enemy_index_at(es.take(k), x, y),
    decreases es.len() - k,
{
    if k < es.len() {
        assert(es.take(k + 1).drop_last() =~= es.take(k));
        lemma_enemy_prefix(es, k + 1, x, y);
    } else {
        assert(es.take(k) =~= es);
    }
}

fn npc_at(ns: &Vec<NpcView>, x: i32, y: i32) -> (r: Option<usize>)
    ensures
        match npc_index_at(ns@, x, y) {
            Some(i) => r matches Some(j) && j as int == i,
            None => r is None,
        },
{
    let mut i: usize = 0;
    while i < ns.len()
        invariant
            i <= ns@.len(),
            npc_index_at(ns@.take(i as int), x, y) is None,
        decreases ns@.len() - i,
    {
        proof {
            assert(ns@.take(i + 1).drop_last() =~= ns@.take(i as int));
        }
        if ns[i].x == x && ns[i].y == y {
            proof {
                lemma_npc_prefix(ns@, i as int + 1, x, y);
            }
            return Some(i);
        }
        i = i + 1;
    }
    proof {
        assert(ns@.take(ns@.len() as int) =~= ns@);
    }
    None
}

proof fn lemma_npc_prefix(ns: Seq<NpcView>, k: int, x: i32, y: i32)
    requires
        0 <= k <= ns.len(),
        npc_index_at(ns.take(k), x, y) is Some,
    ensures
        npc_index_at(ns, x, y) == npc_index_at(ns.take(k), x, y),
    decreases ns.len() - k,
{
    if k < ns.len() {
        assert(ns.take(k + 1).drop_last() =~= ns.take(k));
        lemma_npc_prefix(ns, k + 1, x, y);
    } else {
        assert(ns.take(k) =~= ns);
    }
}

fn item_at(its: &Vec<Item>, x: i32, y: i32) -> (r: Option<usize>)
    ensures
        match item_index_at(its@, x, y) {
            Some(i) => r matches Some(j) && j as int == i,
            None => r is None,
        },
{
    let mut i: usize = 0;
    while i < its.len()
        invariant
            i <= its@.len(),
            item_index_at(its@.take(i as int), x, y) is None,
        decreases its@.len() - i,
    {
        proof {
            assert(its@.take(i + 1).drop_last() =~= its@.take(i as int));
        }
        if its[i].x == x && its[i].y == y {
            proof {
                lemma_item_prefix(its@, i as int + 1, x, y);
            }
            return Some(i);
        }
        i = i + 1;
    }
    proof {
        assert(its@.take(its@.len() as int) =~= its@);
    }
    None
}

proof fn lemma_item_prefix(its: Seq<Item>, k: int, x: i32, y: i32)
    requires
        0 <= k <= its.len(),
        item_index_at(its.take(k), x, y) is Some,
    ensures
        item_index_at(its, x, y) == item_index_at(its.take(k), x, y),
    decreases its.len() - k,
{
    if k < its.len() {
        assert(its.take(k + 1).drop_last() =~= its.take(k));
        lemma_item_prefix(its, k + 1, x, y);
    } else {
        assert(its.take(k) =~= its);
    }
}

fn light_at(ls: &Vec<PlacedLight>, x: i32, y: i32) -> (r: Option<usize>)
    ensures
        match light_index_at(ls@, x, y) {
            Some(i) => r matches Some(j) && j as int == i,
            None => r is None,
        },
{
    let mut i: usize = 0;
    while i < ls.len()
        invariant
            i <= ls@.len(),
            light_index_at(ls@.take(i as int), x, y) is None,
        decreases ls@.len() - i,
    {
        proof {
            assert(ls@.take(i + 1).drop_last() =~= ls@.take(i as int));
        }
        if ls[i].x == x && ls[i].y == y {
            proof {
                lemma_light_prefix(ls@, i as int + 1, x, y);
            }
            return Some(i);
        }
        i = i + 1;
    }
    proof {
        assert(ls@.take(ls@.len() as int) =~= ls@);
    }
    None
}

proof fn lemma_light_prefix(ls: Seq<PlacedLight>, k: int, x: i32, y: i32)
    requires
        0 <= k <= ls.len(),
        light_index_at(ls.take(k), x, y) is Some,
    ensures
        light_index_at(ls, x, y) == light_index_at(ls.take(k), x, y),
    decreases ls.len() - k,
{
    if k < ls.len() {
        assert(ls.take(k + 1).drop_last() =~= ls.take(k));
        lemma_light_prefix(ls, k + 1, x, y);
    } else {
        assert(ls.take(k) =~= ls);
    }
}

fn contains_index(v: &Vec<usize>, i: usize) -> (b: bool)
    ensures
        b == v@.contains(i),
{
    let mut k: usize = 0;
    while k < v.len()
        invariant
            k <= v@.len(),
            forall|j: int| 0 <= j < k ==> v@[j] != i,
        decreases v@.len() - k,
    {
        if v[k] == i {
            return true;
        }
        k = k + 1;
    }
    false
}

/// The lower-case form of an ASCII capital.
fn lower_letter(c: char) -> (d: char)
    requires
        'A' <= c <= 'Z',
    ensures
        d == ((c as u32) + 32) as char,
{
    ((c as u8) + 32) as char
}

/// The text with ASCII capitals turned to lower case.
fn lower_ascii(s: &String) -> (r: String)
    ensures
        r@ == ascii_lower(s@),
{
    let cs = chars_of(s);
    let mut r = String::new();
    let mut i: usize = 0;
    while i < cs.len()
        invariant
            cs@ == s@,
            i <= cs@.len(),
            r@ == ascii_lower(cs@.take(i as int)),
        decreases cs@.len() - i,
    {
        let c = cs[i];
        let d = if 'A' <= c && c <= 'Z' { lower_letter(c) } else { c };
        push_char(&mut r, d);
        proof {
            assert(ascii_lower(cs@.take(i + 1)) =~= ascii_lower(cs@.take(i as int)).push(d));
        }
        i = i + 1;
    }
    proof {
        assert(cs@.take(cs@.len() as int) =~= cs@);
    }
    r
}

impl GameState {
    /// The inspect details of the item at an inventory slot; `None` for an
    /// empty slot or an unknown item.
    pub fn inspect_inventory(&self, weapons: &WeaponRegistry, items: &ItemRegistry, idx: usize) -> (r: Option<ItemInfo>)
        ensures
            idx >= self.inventory@.len() ==> r is None,
            idx < self.inventory@.len() ==> inspected_as(weapons.defs@, items.defs@, self.inventory@[idx as int]@, r),
    {
        if idx < self.inventory.len() {
            inspect_item(weapons, items, self.inventory[idx].as_str())
        } else {
            None
        }
    }

    /// What look mode says of a cell (see `look_text`). `tile_text` is the
    /// tile's name and description as the tile definitions give them, for the
    /// tile at the cell.
    pub fn describe_at(
        &self,
        weapons: &WeaponRegistry,
        items: &ItemRegistry,
        lights: &LightsData,
        x: i32,
        y: i32,
        tile_text: Option<String>,
    ) -> (s: String)
        requires
            self.map.wf(),
        ensures
            s@ == look_text(*self, weapons.defs@, items.defs@, *lights, x, y, tile_text),
    {
        proof {
            lemma_enemy_index(self.enemies@, x, y);
            lemma_npc_index(self.npcs@, x, y);
            lemma_item_index(self.items@, x, y);
            lemma_light_index(self.lights@, x, y);
        }
        let idx = match self.map.pos_to_idx(x, y) {
            None => {
                return String::from_str("Unknown");
            },
            Some(i) => i,
        };
        if !contains_index(&self.visible, idx) && !contains_index(&self.revealed, idx) {
            return String::from_str("Unknown");
        }
        if x == self.player_x && y == self.player_y {
            return String::from_str("You");
        }
        if let Some(ei) = enemy_at(&self.enemies, x, y) {
            let e = &self.enemies[ei];
            let mut out = e.name.clone();
            out.append(" (HP: ");
            push_decimal(&mut out, e.hp as u32);
            out.append(", ");
            out.append(lower_ascii(&e.demeanor).as_str());
            out.append(") - ");
            match &e.description {
                Some(d) => out.append(d.as_str()),
                None => out.append("A creature"),
            }
            return out;
        }
        if let Some(ni) = npc_at(&self.npcs, x, y) {
            let n = &self.npcs[ni];
            let mut out = n.name.clone();
            out.append(" - ");
            match &n.description {
                Some(d) => out.append(d.as_str()),
                None => out.append("A person"),
            }
            return out;
        }
        if let Some(ii) = item_at(&self.items, x, y) {
            let it = &self.items[ii];
            match get_item_def(items, it.id.as_str()) {
                Some(d) => {
                    let mut out = d.name.clone();
                    out.append(" (");
                    if d.armor_value > 0 {
                        out.append("armor");
                    } else if d.usable {
                        out.append("consumable");
                    } else {
                        out.append("item");
                    }
                    out.append(") - ");
                    out.append(d.description.as_str());
                    return out;
                },
                None => {},
            }
            match get_weapon_def(weapons, it.id.as_str()) {
                Some(w) => {
                    let mut out = w.name.clone();
                    out.append(" (weapon) - ");
                    out.append(w.description.as_str());
                    return out;
                },
                None => {},
            }
        }
        if let Some(li) = light_at(&self.lights, x, y) {
            match get_light_def(lights, self.lights[li].id.as_str()) {
                Some(d) => {
                    let mut out = d.name.clone();
                    out.append(" (light source)");
                    return out;
                },
                None => {},
            }
        }
        match tile_text {
            Some(t) => t,
            None => String::from_str("Void"),
        }
    }

    /// Where a cell lies seen from the player: one of the eight compass
    /// directions, or "nearby" for the player's own cell.
    pub fn direction_from(&self, x: i32, y: i32) -> (s: &'static str)
        requires
            i32::MIN <= x - self.player_x <= i32::MAX,
            i32::MIN <= y - self.player_y <= i32::MAX,
        ensures
            s@ == compass(sign(x - self.player_x), sign(y - self.player_y)),
    {
        let dx = x - self.player_x;
        let dy = y - self.player_y;
        let sx: i32 = if dx < 0 { -1 } else if dx > 0 { 1 } else { 0 };
        let sy: i32 = if dy < 0 { -1 } else if dy > 0 { 1 } else { 0 };
        if sx == 0 && sy == -1 {
            "to the north"
        } else if sx == 0 && sy == 1 {
            "to the south"
        } else if sx == -1 && sy == 0 {
            "to the west"
        } else if sx == 1 && sy == 0 {
            "to the east"
        } else if sx == -1 && sy == -1 {
            "to the northwest"
        } else if sx == 1 && sy == -1 {
            "to the northeast"
        } else if sx == -1 && sy == 1 {
            "to the southwest"
        } else if sx == 1 && sy == 1 {
            "to the southeast"
        } else {
            "nearby"
        }
    }
}

} // verus!
