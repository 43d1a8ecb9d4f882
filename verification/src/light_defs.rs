//! Definitions of placeable lights and the per-biome rules for scattering
//! them through rooms.

use vstd::prelude::*;
use rand_chacha::ChaCha8Rng;
use crate::weighted::{weight_sum, pick_from, law_roll_lands, lemma_pick_in_range, total_weight, pick_by_roll};
use crate::rng::gen_range_u32;

verus! {

/// A kind of placeable light.
#[derive(Debug, Clone)]
pub struct LightDef {
    pub id: String,
    pub name: String,
    pub glyph: String,
    pub radius: i32,
    pub intensity: u8,
    pub color: String,
}

/// How many lights a room gets and how likely each kind is.
#[derive(Debug, Clone)]
pub struct SpawnRule {
    /// Least and most lights per room.
    pub lights_per_room: [u32; 2],
    /// Light ids with their weights.
    pub weights: Vec<(String, u32)>,
}

/// The light definitions and the spawn rule of each biome.
pub struct LightsData {
    pub lights: Vec<LightDef>,
    pub spawn_rules: Vec<(String, SpawnRule)>,
}

/// Position of the first light with the given id.
pub open spec fn first_light_with(lights: Seq<LightDef>, id: Seq<char>) -> Option<int>
    decreases lights.len(),
{
    if lights.len() == 0 {
        None
    } else if lights[0].id@ == id {
        Some(0)
    } else {
        match first_light_with(lights.subrange(1, lights.len() as int), id) {
            Some(j) => Some(j + 1),
            None => None,
        }
    }
}

/// Position of the last rule keyed by `key`.
pub open spec fn last_rule_with(rules: Seq<(String, SpawnRule)>, key: Seq<char>) -> Option<int>
    decreases rules.len(),
{
    if rules.len() == 0 {
        None
    } else if rules.last().0@ == key {
        Some(rules.len() - 1)
    } else {
        last_rule_with(rules.drop_last(), key)
    }
}

proof fn lemma_last_rule_in_range(rules: Seq<(String, SpawnRule)>, key: Seq<char>)
    ensures
        last_rule_with(rules, key) matches Some(i) ==> 0 <= i < rules.len(),
    decreases rules.len(),
{
    if rules.len() > 0 {
        lemma_last_rule_in_range(rules.drop_last(), key);
    }
}

/// The rule for a biome, falling back to the "default" rule.
pub open spec fn rule_index(rules: Seq<(String, SpawnRule)>, biome: Seq<char>) -> Option<int> {
    match last_rule_with(rules, biome) {
        Some(i) => Some(i),
        None => last_rule_with(rules, "default"@),
    }
}

/// The weights of a rule, in order.
pub open spec fn rule_weights(rule: SpawnRule) -> Seq<u32> {
    rule.weights@.map_values(|e: (String, u32)| e.1)
}

/// The light with the given id.
pub fn get_light_def<'a>(data: &'a LightsData, id: &str) -> (r: Option<&'a LightDef>)
    ensures
        match first_light_with(data.lights@, id@) {
            Some(i) => r == Some(&data.lights@[i]),
            None => r is None,
        },
{
    let key = String::from_str(id);
    let mut i: usize = 0;
    assert(data.lights@.subrange(0, data.lights@.len() as int) =~= data.lights@);
    while i < data.lights.len()
        invariant
            i <= data.lights@.len(),
            key@ == id@,
            first_light_with(data.lights@, id@) == match first_light_with(
                data.lights@.subrange(i as int, data.lights@.len() as int),
                id@,
            ) {
                Some(j) => Some(j + i),
                None => None,
            },
        decreases data.lights@.len() - i,
    {
        let ghost rest = data.lights@.subrange(i as int, data.lights@.len() as int);
        assert(rest[0] == data.lights@[i as int]);
        if data.lights[i].id == key {
            return Some(&data.lights[i]);
        }
        assert(rest.subrange(1, rest.len() as int) =~= data.lights@.subrange(i + 1, data.lights@.len() as int));
        i = i + 1;
    }
    None
}

/// Position of the last rule keyed by `key`, searched from the back.
fn find_rule(rules: &Vec<(String, SpawnRule)>, key: &String) -> (r: Option<usize>)
    ensures
        r matches Some(i) ==> last_rule_with(rules@, key@) == Some(i as int),
        r is None ==> last_rule_with(rules@, key@) is None,
{
    let mut i = rules.len();
    assert(rules@.subrange(0, i as int) =~= rules@);
    while i > 0
        invariant
            i <= rules@.len(),
            last_rule_with(rules@, key@) == last_rule_with(rules@.subrange(0, i as int), key@),
        decreases i,
    {
        let ghost prefix = rules@.subrange(0, i as int);
        if rules[i - 1].0 == *key {
            assert(prefix.last() == rules@[i - 1]);
            return Some(i - 1);
        }
        assert(prefix.drop_last() =~= rules@.subrange(0, i - 1));
        i = i - 1;
    }
    None
}

/// The spawn rule of a biome, or the default rule when the biome has none.
pub fn get_spawn_rule<'a>(data: &'a LightsData, biome: &str) -> (r: &'a SpawnRule)
    requires
        rule_index(data.spawn_rules@, biome@) is Some,
    ensures
        *r == data.spawn_rules@[rule_index(data.spawn_rules@, biome@)->0].1,
{
    let key = String::from_str(biome);
    proof {
        lemma_last_rule_in_range(data.spawn_rules@, biome@);
        lemma_last_rule_in_range(data.spawn_rules@, "default"@);
    }
    match find_rule(&data.spawn_rules, &key) {
        Some(i) => {
            &data.spawn_rules[i].1
        },
        None => {
            let default_key = String::from_str("default");
            let j = find_rule(&data.spawn_rules, &default_key);
            &data.spawn_rules[j.unwrap()].1
        },
    }
}

/// The weights of a rule, in order.
fn weights_of(rule: &SpawnRule) -> (ws: Vec<u32>)
    ensures
        ws@ == rule_weights(*rule),
{
    let mut ws: Vec<u32> = Vec::new();
    let mut i: usize = 0;
    while i < rule.weights.len()
        invariant
            i <= rule.weights@.len(),
            ws@ == rule_weights(*rule).subrange(0, i as int),
        decreases rule.weights@.len() - i,
    {
        ws.push(rule.weights[i].1);
        i = i + 1;
        assert(ws@ =~= rule_weights(*rule).subrange(0, i as int));
    }
    assert(rule_weights(*rule).subrange(0, i as int) =~= rule_weights(*rule));
    ws
}

/// The light id that `roll` lands on, by the rule's weights.
pub fn pick_light_by_roll(rule: &SpawnRule, roll: u32) -> (r: Option<String>)
    ensures
        match pick_from(rule_weights(*rule), roll as int) {
            Some(i) => r matches Some(s) && s@ == rule.weights@[i].0@,
            None => r is None,
        },
{
    let ws = weights_of(rule);
    proof {
        lemma_pick_in_range(ws@, roll as int);
    }
    match pick_by_roll(&ws, roll) {
        Some(i) => Some(rule.weights[i].0.clone()),
        None => None,
    }
}

/// A light id drawn by the rule's weights; `None` when they sum to zero.
pub fn pick_light_type(rule: &SpawnRule, rng: &mut ChaCha8Rng) -> (r: Option<String>)
    requires
        weight_sum(rule_weights(*rule)) <= u32::MAX,
    ensures
        weight_sum(rule_weights(*rule)) == 0 ==> r is None,
        weight_sum(rule_weights(*rule)) > 0 ==> (r matches Some(s) && exists|i: int|
            0 <= i < rule.weights@.len() && rule.weights@[i].1 > 0 && #[trigger] rule.weights@[i].0@ == s@),
{
    let ws = weights_of(rule);
    let total = total_weight(&ws);
    if total == 0 {
        return None;
    }
    let roll = gen_range_u32(rng, 0, total);
    proof {
        law_roll_lands(ws@, roll as int);
    }
    let r = pick_light_by_roll(rule, roll);
    proof {
        let i = pick_from(ws@, roll as int)->0;
        assert(rule.weights@[i].1 == ws@[i]);
    }
    r
}

} // verus!
