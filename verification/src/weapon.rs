//! Weapon definitions and the registry they are looked up in.

use vstd::prelude::*;

verus! {

/// What the inspect screen reads of a kind of weapon.
#[derive(Clone, Debug)]
pub struct WeaponDef {
    pub id: String,
    pub name: String,
    pub description: String,
    pub damage_min: u32,
    pub damage_max: u32,
    /// Chance to hit, in percent.
    pub accuracy: u32,
    pub range: u32,
    /// Action points one attack costs.
    pub ap_cost: u32,
}

/// The weapon definitions, in the order they were loaded. A later definition
/// with an id already seen replaces the earlier one.
pub struct WeaponRegistry {
    pub defs: Vec<WeaponDef>,
}

/// Position of the last weapon definition with the given id.
pub open spec fn last_weapon_with(defs: Seq<WeaponDef>, id: Seq<char>) -> Option<int>
    decreases defs.len(),
{
    if defs.len() == 0 {
        None
    } else if defs.last().id@ == id {
        Some(defs.len() - 1)
    } else {
        last_weapon_with(defs.drop_last(), id)
    }
}

/// The weapon definition registered under `id`.
pub fn get_weapon_def<'a>(registry: &'a WeaponRegistry, id: &str) -> (r: Option<&'a WeaponDef>)
    ensures
        match last_weapon_with(registry.defs@, id@) {
            Some(i) => r == Some(&registry.defs@[i]),
            None => r is None,
        },
{
    let key = String::from_str(id);
    let mut i = registry.defs.len();
    assert(registry.defs@.subrange(0, i as int) =~= registry.defs@);
    while i > 0
        invariant
            i <= registry.defs@.len(),
            key@ == id@,
            last_weapon_with(registry.defs@, id@) == last_weapon_with(registry.defs@.subrange(0, i as int), id@),
        decreases i,
    {
        let ghost prefix = registry.defs@.subrange(0, i as int);
        if registry.defs[i - 1].id == key {
            assert(prefix.last() == registry.defs@[i - 1]);
            return Some(&registry.defs[i - 1]);
        }
        proof {
            assert(prefix.drop_last() =~= registry.defs@.subrange(0, i - 1));
        }
        i = i - 1;
    }
    None
}

} // verus!
