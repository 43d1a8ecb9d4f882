//! Where story fragments may be placed, which placed fragments are near the
//! player, and discovering them.

use vstd::prelude::*;

verus! {

/// Rules for where a story fragment may be placed.
#[derive(Debug, Clone)]
pub struct PlacementRules {
    pub biomes: Vec<String>,
    pub min_distance_from_player: u32,
    pub max_distance_from_player: u32,
    pub requires_poi: Option<String>,
    pub exclusion_zones: Vec<String>,
}

/// A story fragment placed in the world.
#[derive(Debug, Clone)]
pub struct PlacedFragment {
    pub fragment_id: String,
    pub x: i32,
    pub y: i32,
    pub discovered: bool,
    pub activation_turn: u32,
}

/// The text appears among the strings.
pub open spec fn listed(v: Seq<String>, s: Seq<char>) -> bool {
    exists|i: int| 0 <= i < v.len() && (#[trigger] v[i])@ == s
}

/// A fragment with the given id has been placed.
pub open spec fn placed_already(placed: Seq<PlacedFragment>, id: Seq<char>) -> bool {
    exists|i: int| 0 <= i < placed.len() && (#[trigger] placed[i]).fragment_id@ == id
}

/// Whether the text appears among the strings.
fn is_listed(v: &Vec<String>, s: &String) -> (b: bool)
    ensures
        b == listed(v@, s@),
{
    let mut i: usize = 0;
    while i < v.len()
        invariant
            i <= v@.len(),
            forall|j: int| 0 <= j < i ==> (#[trigger] v@[j])@ != s@,
        decreases v@.len() - i,
    {
        if v[i] == *s {
            return true;
        }
        i = i + 1;
    }
    false
}

/// A fragment may be placed when the current biome is among its biomes (or
/// it names none), every prerequisite has been discovered, and it has not
/// been placed yet.
pub fn can_place_fragment(
    fragment_id: &String,
    rules: &PlacementRules,
    prerequisites: &Vec<String>,
    current_biome: &String,
    discovered_fragments: &Vec<String>,
    placed: &Vec<PlacedFragment>,
) -> (b: bool)
    ensures
        b == ((rules.biomes@.len() == 0 || listed(rules.biomes@, current_biome@))
            && (forall|k: int| 0 <= k < prerequisites@.len() ==> listed(discovered_fragments@, (#[trigger] prerequisites@[k])@))
            && !placed_already(placed@, fragment_id@)),
{
    if rules.biomes.len() > 0 && !is_listed(&rules.biomes, current_biome) {
        return false;
    }
    let mut k: usize = 0;
    while k < prerequisites.len()
        invariant
            k <= prerequisites@.len(),
            rules.biomes@.len() == 0 || listed(rules.biomes@, current_biome@),
            forall|j: int| 0 <= j < k ==> listed(discovered_fragments@, (#[trigger] prerequisites@[j])@),
        decreases prerequisites@.len() - k,
    {
        if !is_listed(discovered_fragments, &prerequisites[k]) {
            return false;
        }
        k = k + 1;
    }
    let mut i: usize = 0;
    while i < placed.len()
        invariant
            i <= placed@.len(),
            forall|j: int| 0 <= j < i ==> (#[trigger] placed@[j]).fragment_id@ != fragment_id@,
        decreases placed@.len() - i,
    {
        if placed[i].fragment_id == *fragment_id {
            return false;
        }
        i = i + 1;
    }
    true
}

/// The fragment lies within `radius` of `(x, y)` (Euclidean, compared on
/// squares).
pub open spec fn near(f: PlacedFragment, x: int, y: int, radius: int) -> bool {
    (f.x - x) * (f.x - x) + (f.y - y) * (f.y - y) <= radius * radius
}

/// The placed fragments within `radius` of `(x, y)`, in order.
pub fn get_fragments_near(placed: &Vec<PlacedFragment>, x: i32, y: i32, radius: i32) -> (r: Vec<usize>)
    ensures
        forall|k: int| 0 <= k < r@.len() ==> (#[trigger] r@[k]) < placed@.len() && near(
            placed@[r@[k] as int],
            x as int,
            y as int,
            radius as int,
        ),
        forall|i: int| 0 <= i < placed@.len() && near(placed@[i], x as int, y as int, radius as int) ==> r@.contains(
            i as usize,
        ),
        forall|a: int, b: int| 0 <= a < b < r@.len() ==> r@[a] < r@[b],
{
    let mut r: Vec<usize> = Vec::new();
    let mut i: usize = 0;
    while i < placed.len()
        invariant
            i <= placed@.len(),
            forall|k: int| 0 <= k < r@.len() ==> (#[trigger] r@[k]) < i && near(
                placed@[r@[k] as int],
                x as int,
                y as int,
                radius as int,
            ),
            forall|j: int| 0 <= j < i && near(placed@[j], x as int, y as int, radius as int) ==> r@.contains(j as usize),
            forall|a: int, b: int| 0 <= a < b < r@.len() ==> r@[a] < r@[b],
        decreases placed@.len() - i,
    {
        let dx = placed[i].x as i128 - x as i128;
        let dy = placed[i].y as i128 - y as i128;
        let rr = radius as i128;
        proof {
            assert(0 <= dx * dx <= 0x4_0000_0000_0000_0000) by (nonlinear_arith)
                requires
                    -0x1_0000_0000 <= dx <= 0x1_0000_0000,
            ;
            assert(0 <= dy * dy <= 0x4_0000_0000_0000_0000) by (nonlinear_arith)
                requires
                    -0x1_0000_0000 <= dy <= 0x1_0000_0000,
            ;
            assert(0 <= rr * rr <= 0x4_0000_0000_0000_0000) by (nonlinear_arith)
                requires
                    -0x1_0000_0000 <= rr <= 0x1_0000_0000,
            ;
        }
        let d2 = dx * dx + dy * dy;
        if d2 <= rr * rr {
            let ghost r0 = r@;
            r.push(i);
            proof {
                assert forall|j: int| 0 <= j < i + 1 && near(placed@[j], x as int, y as int, radius as int) implies r@.contains(
                    j as usize,
                ) by {
                    if j < i {
                        let k = choose|k: int| 0 <= k < r0.len() && r0[k] == j as usize;
                        assert(r@[k] == j as usize);
                    } else {
                        assert(r@[r0.len() as int] == i);
                    }
                }
            }
        }
        i = i + 1;
    }
    r
}

/// Mark the placed fragment with the given id as discovered (the first one
/// with that id); returns whether one was found.
pub fn discover_fragment(placed: &mut Vec<PlacedFragment>, fragment_id: &String) -> (found: Option<usize>)
    ensures
        final(placed)@.len() == old(placed)@.len(),
        match found {
            Some(i) => i < old(placed)@.len() && old(placed)@[i as int].fragment_id@ == fragment_id@
                && (forall|j: int| 0 <= j < i ==> (#[trigger] old(placed)@[j]).fragment_id@ != fragment_id@)
                && final(placed)@ == old(placed)@.update(
                i as int,
                PlacedFragment { discovered: true, ..old(placed)@[i as int] },
            ),
            None => !placed_already(old(placed)@, fragment_id@) && final(placed)@ == old(placed)@,
        },
{
    let mut i: usize = 0;
    while i < placed.len()
        invariant
            i <= placed@.len(),
            placed@ == old(placed)@,
            forall|j: int| 0 <= j < i ==> (#[trigger] placed@[j]).fragment_id@ != fragment_id@,
        decreases placed@.len() - i,
    {
        if placed[i].fragment_id == *fragment_id {
            let f = PlacedFragment {
                fragment_id: placed[i].fragment_id.clone(),
                x: placed[i].x,
                y: placed[i].y,
                discovered: true,
                activation_turn: placed[i].activation_turn,
            };
            placed.set(i, f);
            return Some(i);
        }
        i = i + 1;
    }
    None
}

} // verus!
