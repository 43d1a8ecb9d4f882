//! What a quest asks of the tile it is placed on: room around each objective,
//! the entities the objectives need, and how open and populated the tile must
//! be. Fractions are carried in thousandths: a requirement of `900` means 0.9.

use vstd::prelude::*;
use crate::map::{TileMap, Tile, tile_walkable, cell_index, lemma_cell_index_bounds};
use crate::constraints::{ConstraintResult, ConstraintSeverity, EntityPlacement, critical_rules_pass};
use crate::connectivity::{flood_fill, is_floor_region, unvisited_grid, lemma_new_region, in_regions, regions_disjoint};
use crate::text::{push_decimal, push_decimal_usize, push_two_decimals, decimal, digit_char, two_decimals, hundredths};
use crate::constraints::ConstraintContext;



verus! {

/// What a quest objective asks of the player.
#[derive(Debug)]
pub enum ObjectiveType {
    Reach,
    TalkTo { npc_id: String },
    Collect { item_id: String },
    Interact { target: String },
    Examine { target: String },
    InterfaceWithAria,
    Kill,
    Wait,
    CollectData,
}

impl Clone for ObjectiveType {
    fn clone(&self) -> (res: Self)
        ensures
            res == *self,
    {
        match self {
            ObjectiveType::Reach => ObjectiveType::Reach,
            ObjectiveType::TalkTo { npc_id } => ObjectiveType::TalkTo { npc_id: npc_id.clone() },
            ObjectiveType::Collect { item_id } => ObjectiveType::Collect { item_id: item_id.clone() },
            ObjectiveType::Interact { target } => ObjectiveType::Interact { target: target.clone() },
            ObjectiveType::Examine { target } => ObjectiveType::Examine { target: target.clone() },
            ObjectiveType::InterfaceWithAria => ObjectiveType::InterfaceWithAria,
            ObjectiveType::Kill => ObjectiveType::Kill,
            ObjectiveType::Wait => ObjectiveType::Wait,
            ObjectiveType::CollectData => ObjectiveType::CollectData,
        }
    }
}

/// One objective of a quest.
#[derive(Debug, Clone)]
pub struct QuestObjective {
    pub id: String,
    pub objective_type: ObjectiveType,
}

/// The parts of a quest definition that its requirements are drawn from.
#[derive(Debug, Clone)]
pub struct QuestDef {
    pub id: String,
    pub category: String,
    pub objectives: Vec<QuestObjective>,
}

/// Room an objective needs around it.
#[derive(Debug, Clone, Copy, PartialEq, Eq)]
pub struct SpatialRequirement {
    pub min_accessible_area: u32,
    pub max_distance_from_spawn: Option<u32>,
    pub requires_line_of_sight: bool,
    pub requires_safe_path: bool,
}

/// An entity an objective needs on the tile.
#[derive(Debug, Clone)]
pub struct EntityRequirement {
    /// "npc", "item", "enemy" or "interactable".
    pub entity_type: String,
    pub entity_id: String,
    pub must_be_reachable: bool,
    pub must_be_interactable: bool,
    /// In thousandths.
    pub min_spawn_chance: u32,
}

/// How open the tile must be for the whole quest.
#[derive(Debug, Clone, Copy, PartialEq, Eq)]
pub struct AccessibilityRequirement {
    /// Share of the walkable cells reachable from the first one, in thousandths.
    pub min_connectivity_score: u32,
    pub requires_player_spawn_access: bool,
    pub max_blocked_objectives: u32,
}

/// What must have spawned on the tile.
#[derive(Debug, Clone)]
pub struct SpawnRequirement {
    pub required_biomes: Vec<String>,
    pub required_microstructures: Vec<String>,
    /// Share of non-glass cells, in thousandths.
    pub min_structure_coverage: u32,
    /// Enemies per hundred cells, in thousandths: the low end of the range.
    pub min_hostile_density: u32,
    /// Enemies per hundred cells, in thousandths: the high end of the range.
    pub max_hostile_density: u32,
}

/// The requirements of one objective.
#[derive(Debug, Clone)]
pub struct ObjectiveRequirement {
    pub objective_id: String,
    pub objective_type: ObjectiveType,
    pub spatial_requirements: SpatialRequirement,
    pub entity_requirements: Vec<EntityRequirement>,
}

/// Every requirement of one quest.
#[derive(Debug, Clone)]
pub struct QuestConstraint {
    pub quest_id: String,
    pub objective_requirements: Vec<ObjectiveRequirement>,
    pub accessibility_requirements: AccessibilityRequirement,
    pub spawn_requirements: SpawnRequirement,
}

/// Validates quests against generated tiles.
pub struct QuestConstraintSystem;

/// The room each kind of objective needs.
pub open spec fn spatial_requirement_of(t: ObjectiveType) -> SpatialRequirement {
    match t {
        ObjectiveType::Reach => SpatialRequirement {
            min_accessible_area: 1,
            max_distance_from_spawn: Some(100),
            requires_line_of_sight: false,
            requires_safe_path: true,
        },
        ObjectiveType::TalkTo { .. } => SpatialRequirement {
            min_accessible_area: 4,
            max_distance_from_spawn: Some(150),
            requires_line_of_sight: false,
            requires_safe_path: true,
        },
        ObjectiveType::Collect { .. } => SpatialRequirement {
            min_accessible_area: 1,
            max_distance_from_spawn: Some(200),
            requires_line_of_sight: false,
            requires_safe_path: true,
        },
        ObjectiveType::Interact { .. } => SpatialRequirement {
            min_accessible_area: 1,
            max_distance_from_spawn: Some(150),
            requires_line_of_sight: false,
            requires_safe_path: true,
        },
        ObjectiveType::Examine { .. } => SpatialRequirement {
            min_accessible_area: 1,
            max_distance_from_spawn: Some(150),
            requires_line_of_sight: false,
            requires_safe_path: true,
        },
        ObjectiveType::InterfaceWithAria => SpatialRequirement {
            min_accessible_area: 9,
            max_distance_from_spawn: Some(100),
            requires_line_of_sight: true,
            requires_safe_path: true,
        },
        _ => SpatialRequirement {
            min_accessible_area: 1,
            max_distance_from_spawn: None,
            requires_line_of_sight: false,
            requires_safe_path: false,
        },
    }
}

/// The entity requirement is a reachable, interactable entity of the given
/// kind and id with the given minimum spawn chance.
pub open spec fn needs_entity(e: EntityRequirement, kind: Seq<char>, id: Seq<char>, chance: u32) -> bool {
    &&& e.entity_type@ == kind
    &&& e.entity_id@ == id
    &&& e.must_be_reachable
    &&& e.must_be_interactable
    &&& e.min_spawn_chance == chance
}

/// The entities each kind of objective needs: talking needs the NPC, collecting
/// the item, interacting and examining the target, interfacing the archive
/// terminal; the other kinds need none.
pub open spec fn entity_requirements_of(t: ObjectiveType, reqs: Seq<EntityRequirement>) -> bool {
    match t {
        ObjectiveType::TalkTo { npc_id } => reqs.len() == 1 && needs_entity(reqs[0], "npc"@, npc_id@, 900),
        ObjectiveType::Collect { item_id } => reqs.len() == 1 && needs_entity(reqs[0], "item"@, item_id@, 800),
        ObjectiveType::Interact { target } => reqs.len() == 1 && needs_entity(
            reqs[0],
            "interactable"@,
            target@,
            900,
        ),
        ObjectiveType::Examine { target } => reqs.len() == 1 && needs_entity(
            reqs[0],
            "interactable"@,
            target@,
            900,
        ),
        ObjectiveType::InterfaceWithAria => reqs.len() == 1 && needs_entity(
            reqs[0],
            "npc"@,
            "archive_terminal"@,
            1000,
        ),
        _ => reqs.len() == 0,
    }
}

/// Main quests must be highly accessible, side quests less so, others least.
pub open spec fn accessibility_of(category: Seq<char>) -> AccessibilityRequirement {
    if category == "main"@ {
        AccessibilityRequirement { min_connectivity_score: 900, requires_player_spawn_access: true, max_blocked_objectives: 0 }
    } else if category == "side"@ {
        AccessibilityRequirement { min_connectivity_score: 700, requires_player_spawn_access: true, max_blocked_objectives: 1 }
    } else {
        AccessibilityRequirement { min_connectivity_score: 500, requires_player_spawn_access: false, max_blocked_objectives: 2 }
    }
}

/// Main quests sit in library ruins with dense structures and moderate to high
/// danger; side quests anywhere with some structure and lower danger; others
/// anywhere with little of either.
pub open spec fn spawn_requirement_of(category: Seq<char>, s: SpawnRequirement) -> bool {
    if category == "main"@ {
        &&& s.required_biomes@.len() == 1
        &&& s.required_biomes@[0]@ == "ruins"@
        &&& s.required_microstructures@.len() == 1
        &&& s.required_microstructures@[0]@ == "vitrified_library_ruins"@
        &&& s.min_structure_coverage == 400
        &&& s.min_hostile_density == 300
        &&& s.max_hostile_density == 700
    } else if category == "side"@ {
        &&& s.required_biomes@.len() == 0
        &&& s.required_microstructures@.len() == 0
        &&& s.min_structure_coverage == 100
        &&& s.min_hostile_density == 100
        &&& s.max_hostile_density == 500
    } else {
        &&& s.required_biomes@.len() == 0
        &&& s.required_microstructures@.len() == 0
        &&& s.min_structure_coverage == 50
        &&& s.min_hostile_density == 0
        &&& s.max_hostile_density == 300
    }
}

/// The requirements of one objective, drawn from its kind.
pub open spec fn objective_requirement_of(o: QuestObjective, r: ObjectiveRequirement) -> bool {
    &&& r.objective_id@ == o.id@
    &&& r.objective_type == o.objective_type
    &&& r.spatial_requirements == spatial_requirement_of(o.objective_type)
    &&& entity_requirements_of(o.objective_type, r.entity_requirements@)
}

/// A needed entity of the given kind and id, reachable and interactable.
fn entity(kind: &str, id: &str, chance: u32) -> (e: EntityRequirement)
    ensures
        needs_entity(e, kind@, id@, chance),
{
    EntityRequirement {
        entity_type: kind.to_owned(),
        entity_id: id.to_owned(),
        must_be_reachable: true,
        must_be_interactable: true,
        min_spawn_chance: chance,
    }
}

impl QuestConstraintSystem {
    /// The room an objective of this kind needs.
    pub fn spatial_requirement_for(t: &ObjectiveType) -> (r: SpatialRequirement)
        ensures
            r == spatial_requirement_of(*t),
    {
        match t {
            ObjectiveType::Reach => SpatialRequirement {
                min_accessible_area: 1,
                max_distance_from_spawn: Some(100),
                requires_line_of_sight: false,
                requires_safe_path: true,
            },
            ObjectiveType::TalkTo { .. } => SpatialRequirement {
                min_accessible_area: 4,
                max_distance_from_spawn: Some(150),
                requires_line_of_sight: false,
                requires_safe_path: true,
            },
            ObjectiveType::Collect { .. } => SpatialRequirement {
                min_accessible_area: 1,
                max_distance_from_spawn: Some(200),
                requires_line_of_sight: false,
                requires_safe_path: true,
            },
            ObjectiveType::Interact { .. } | ObjectiveType::Examine { .. } => SpatialRequirement {
                min_accessible_area: 1,
                max_distance_from_spawn: Some(150),
                requires_line_of_sight: false,
                requires_safe_path: true,
            },
            ObjectiveType::InterfaceWithAria => SpatialRequirement {
                min_accessible_area: 9,
                max_distance_from_spawn: Some(100),
                requires_line_of_sight: true,
                requires_safe_path: true,
            },
            _ => SpatialRequirement {
                min_accessible_area: 1,
                max_distance_from_spawn: None,
                requires_line_of_sight: false,
                requires_safe_path: false,
            },
        }
    }

    /// The entities an objective of this kind needs.
    pub fn generate_entity_requirements(t: &ObjectiveType) -> (reqs: Vec<EntityRequirement>)
        ensures
            entity_requirements_of(*t, reqs@),
    {
        let mut reqs: Vec<EntityRequirement> = Vec::new();
        match t {
            ObjectiveType::TalkTo { npc_id } => {
                reqs.push(entity("npc", npc_id.as_str(), 900));
            },
            ObjectiveType::Collect { item_id } => {
                reqs.push(entity("item", item_id.as_str(), 800));
            },
            ObjectiveType::Interact { target } => {
                reqs.push(entity("interactable", target.as_str(), 900));
            },
            ObjectiveType::Examine { target } => {
                reqs.push(entity("interactable", target.as_str(), 900));
            },
            ObjectiveType::InterfaceWithAria => {
                reqs.push(entity("npc", "archive_terminal", 1000));
            },
            _ => {},
        }
        reqs
    }

    /// The accessibility and spawn requirements of a quest category.
    pub fn category_requirements(category: &String) -> (r: (AccessibilityRequirement, SpawnRequirement))
        ensures
            r.0 == accessibility_of(category@),
            spawn_requirement_of(category@, r.1),
    {
        if *category == String::from_str("main") {
            let mut biomes: Vec<String> = Vec::new();
            biomes.push(String::from_str("ruins"));
            let mut micro: Vec<String> = Vec::new();
            micro.push(String::from_str("vitrified_library_ruins"));
            (
                AccessibilityRequirement {
                    min_connectivity_score: 900,
                    requires_player_spawn_access: true,
                    max_blocked_objectives: 0,
                },
                SpawnRequirement {
                    required_biomes: biomes,
                    required_microstructures: micro,
                    min_structure_coverage: 400,
                    min_hostile_density: 300,
                    max_hostile_density: 700,
                },
            )
        } else if *category == String::from_str("side") {
            (
                AccessibilityRequirement {
                    min_connectivity_score: 700,
                    requires_player_spawn_access: true,
                    max_blocked_objectives: 1,
                },
                SpawnRequirement {
                    required_biomes: Vec::new(),
                    required_microstructures: Vec::new(),
                    min_structure_coverage: 100,
                    min_hostile_density: 100,
                    max_hostile_density: 500,
                },
            )
        } else {
            (
                AccessibilityRequirement {
                    min_connectivity_score: 500,
                    requires_player_spawn_access: false,
                    max_blocked_objectives: 2,
                },
                SpawnRequirement {
                    required_biomes: Vec::new(),
                    required_microstructures: Vec::new(),
                    min_structure_coverage: 50,
                    min_hostile_density: 0,
                    max_hostile_density: 300,
                },
            )
        }
    }

    /// All requirements of a quest: one entry per objective, in order, and the
    /// accessibility and spawn requirements of its category.
    pub fn generate_quest_constraint(quest_def: &QuestDef) -> (c: QuestConstraint)
        ensures
            c.quest_id@ == quest_def.id@,
            c.objective_requirements@.len() == quest_def.objectives@.len(),
            forall|i: int| 0 <= i < quest_def.objectives@.len() ==> objective_requirement_of(
                quest_def.objectives@[i],
                #[trigger] c.objective_requirements@[i],
            ),
            c.accessibility_requirements == accessibility_of(quest_def.category@),
            spawn_requirement_of(quest_def.category@, c.spawn_requirements),
    {
        let mut reqs: Vec<ObjectiveRequirement> = Vec::new();
        let mut i: usize = 0;
        while i < quest_def.objectives.len()
            invariant
                i <= quest_def.objectives@.len(),
                reqs@.len() == i,
                forall|k: int| 0 <= k < i ==> objective_requirement_of(
                    quest_def.objectives@[k],
                    #[trigger] reqs@[k],
                ),
            decreases quest_def.objectives@.len() - i,
        {
            let o = &quest_def.objectives[i];
            let spatial = Self::spatial_requirement_for(&o.objective_type);
            let entities = Self::generate_entity_requirements(&o.objective_type);
            reqs.push(ObjectiveRequirement {
                objective_id: o.id.clone(),
                objective_type: o.objective_type.clone(),
                spatial_requirements: spatial,
                entity_requirements: entities,
            });
            i = i + 1;
        }
        let (acc, spawn) = Self::category_requirements(&quest_def.category);
        QuestConstraint {
            quest_id: quest_def.id.clone(),
            objective_requirements: reqs,
            accessibility_requirements: acc,
            spawn_requirements: spawn,
        }
    }
}

/// Number of walkable tiles in a row-major tile sequence.
pub open spec fn count_walkable(s: Seq<Tile>) -> nat
    decreases s.len(),
{
    if s.len() == 0 {
        0
    } else {
        count_walkable(s.drop_last()) + if tile_walkable(s.last()) { 1nat } else { 0nat }
    }
}

/// Number of tiles that are not glass.
pub open spec fn count_non_glass(s: Seq<Tile>) -> nat
    decreases s.len(),
{
    if s.len() == 0 {
        0
    } else {
        count_non_glass(s.drop_last()) + if s.last() is Glass { 0nat } else { 1nat }
    }
}

/// Index of the first walkable tile, if any.
pub open spec fn first_walkable(s: Seq<Tile>) -> Option<int>
    decreases s.len(),
{
    if s.len() == 0 {
        None
    } else if tile_walkable(s[0]) {
        Some(0)
    } else {
        match first_walkable(s.drop_first()) {
            Some(i) => Some(i + 1),
            None => None,
        }
    }
}

pub proof fn lemma_first_walkable(s: Seq<Tile>)
    ensures
        first_walkable(s) is None <==> count_walkable(s) == 0,
        first_walkable(s) is None <==> forall|k: int| 0 <= k < s.len() ==> !tile_walkable(#[trigger] s[k]),
        first_walkable(s) matches Some(i) ==> 0 <= i < s.len() && tile_walkable(s[i])
            && forall|k: int| 0 <= k < i ==> !tile_walkable(#[trigger] s[k]),
    decreases s.len(),
{
    if s.len() > 0 {
        lemma_first_walkable(s.drop_first());
        lemma_first_walkable(s.drop_last());
        assert forall|k: int| 1 <= k < s.len() implies #[trigger] s[k] == s.drop_first()[k - 1] by {}
        if first_walkable(s) is None {
            assert(!tile_walkable(s[0]));
            assert forall|k: int| 0 <= k < s.len() implies !tile_walkable(#[trigger] s[k]) by {
                if k > 0 {
                    assert(s[k] == s.drop_first()[k - 1]);
                }
            }
            assert forall|k: int| 0 <= k < s.drop_last().len() implies !tile_walkable(#[trigger] s.drop_last()[k]) by {
                assert(s.drop_last()[k] == s[k]);
            }
        } else {
            let i = first_walkable(s)->0;
            assert(tile_walkable(s[i]));
            if i == s.len() - 1 {
                assert(s.last() == s[i]);
            } else {
                assert(s.drop_last()[i] == s[i]);
            }
        }
    }
}

/// The walkable tiles in a prefix are counted by the prefix count.
proof fn lemma_count_walkable_push(s: Seq<Tile>, t: Tile)
    ensures
        count_walkable(s.push(t)) == count_walkable(s) + if tile_walkable(t) { 1nat } else { 0nat },
        count_non_glass(s.push(t)) == count_non_glass(s) + if t is Glass { 0nat } else { 1nat },
{
    assert(s.push(t).drop_last() =~= s);
}

/// Number of entities of type "enemy".
pub open spec fn count_enemies(s: Seq<EntityPlacement>) -> nat
    decreases s.len(),
{
    if s.len() == 0 {
        0
    } else {
        count_enemies(s.drop_last()) + if s.last().entity_type@ == "enemy"@ { 1nat } else { 0nat }
    }
}

impl QuestConstraintSystem {
    /// Number of walkable cells on the map.
    pub fn calculate_accessible_area(m: &TileMap) -> (r: u32)
        requires
            m.tiles@.len() <= u32::MAX,
        ensures
            r == count_walkable(m.tiles@),
    {
        let mut n: u32 = 0;
        let mut i: usize = 0;
        while i < m.tiles.len()
            invariant
                i <= m.tiles@.len(),
                m.tiles@.len() <= u32::MAX,
                n == count_walkable(m.tiles@.subrange(0, i as int)),
                n <= i,
            decreases m.tiles@.len() - i,
        {
            proof {
                lemma_count_walkable_push(m.tiles@.subrange(0, i as int), m.tiles@[i as int]);
                assert(m.tiles@.subrange(0, i as int).push(m.tiles@[i as int]) =~= m.tiles@.subrange(0, i + 1));
            }
            if m.tiles[i].walkable() {
                n = n + 1;
            }
            i = i + 1;
        }
        proof {
            assert(m.tiles@.subrange(0, m.tiles@.len() as int) =~= m.tiles@);
        }
        n
    }

    /// Number of cells that are not glass.
    pub fn count_structure_tiles(m: &TileMap) -> (r: usize)
        ensures
            r == count_non_glass(m.tiles@),
    {
        let mut n: usize = 0;
        let mut i: usize = 0;
        while i < m.tiles.len()
            invariant
                i <= m.tiles@.len(),
                n == count_non_glass(m.tiles@.subrange(0, i as int)),
                n <= i,
            decreases m.tiles@.len() - i,
        {
            proof {
                lemma_count_walkable_push(m.tiles@.subrange(0, i as int), m.tiles@[i as int]);
                assert(m.tiles@.subrange(0, i as int).push(m.tiles@[i as int]) =~= m.tiles@.subrange(0, i + 1));
            }
            if !matches!(m.tiles[i], Tile::Glass) {
                n = n + 1;
            }
            i = i + 1;
        }
        proof {
            assert(m.tiles@.subrange(0, m.tiles@.len() as int) =~= m.tiles@);
        }
        n
    }

    /// Number of enemies among the placed entities.
    pub fn count_hostiles(entities: &Vec<EntityPlacement>) -> (r: usize)
        ensures
            r == count_enemies(entities@),
    {
        let mut n: usize = 0;
        let mut i: usize = 0;
        let enemy = String::from_str("enemy");
        while i < entities.len()
            invariant
                i <= entities@.len(),
                enemy@ == "enemy"@,
                n == count_enemies(entities@.subrange(0, i as int)),
                n <= i,
            decreases entities@.len() - i,
        {
            proof {
                assert(entities@.subrange(0, i + 1).drop_last() =~= entities@.subrange(0, i as int));
            }
            if entities[i].entity_type == enemy {
                n = n + 1;
            }
            i = i + 1;
        }
        proof {
            assert(entities@.subrange(0, entities@.len() as int) =~= entities@);
        }
        n
    }

    /// The region of walkable cells connected to the first walkable cell in
    /// row order; empty when no cell is walkable.
    pub fn reachable_from_first(m: &TileMap) -> (region: Vec<(i32, i32)>)
        requires
            m.wf(),
        ensures
            count_walkable(m.tiles@) == 0 <==> region@.len() == 0,
            region@.len() > 0 ==> is_floor_region(m, region@),
            first_walkable(m.tiles@) matches Some(i) ==> region@.len() > 0 && region@[0] == (
                (i % m.width as int) as i32,
                (i / m.width as int) as i32,
            ),
    {
        proof {
            lemma_first_walkable(m.tiles@);
        }
        let mut i: usize = 0;
        while i < m.tiles.len()
            invariant
                i <= m.tiles@.len(),
                forall|k: int| 0 <= k < i ==> !tile_walkable(#[trigger] m.tiles@[k]),
            ensures
                i <= m.tiles@.len(),
                forall|k: int| 0 <= k < i ==> !tile_walkable(#[trigger] m.tiles@[k]),
                i < m.tiles@.len() ==> tile_walkable(m.tiles@[i as int]),
            decreases m.tiles@.len() - i,
        {
            if m.tiles[i].walkable() {
                break;
            }
            i = i + 1;
        }
        if i == m.tiles.len() {
            return Vec::new();
        }
        assert(first_walkable(m.tiles@) == Some(i as int));
        let w = m.width;
        assert(w > 0) by {
            if w == 0 {
                assert(m.tiles@.len() == 0) by (nonlinear_arith)
                    requires
                        m.tiles@.len() == m.width * m.height,
                        m.width == 0,
                ;
            }
        }
        let x = i % w;
        let y = i / w;
        proof {
            vstd::arithmetic::div_mod::lemma_fundamental_div_mod(i as int, w as int);
            assert(y < m.height) by (nonlinear_arith)
                requires
                    i < m.width * m.height,
                    y == i / m.width,
                    m.width > 0,
            ;
            assert(cell_index(w as int, x as int, y as int) == i) by (nonlinear_arith)
                requires
                    i as int == w as int * (i as int / w as int) + i as int % w as int,
                    x == i % w,
                    y == i / w,
            ;
        }
        let mut visited = unvisited_grid(m.width, m.height);
        let ghost v0 = visited@;
        let region = flood_fill(m, x as i32, y as i32, &mut visited);
        proof {
            assert(m.walkable_at(x as int, y as int));
            lemma_new_region(m, Seq::empty(), region, (x as i32, y as i32), v0, visited@);
        }
        region
    }
}

/// The entity carries the property `id` with the given value (properties hold
/// each key once).
pub open spec fn has_id(e: EntityPlacement, id: Seq<char>) -> bool {
    exists|k: int| 0 <= k < e.properties@.len() && (#[trigger] e.properties@[k]).0@ == "id"@
        && e.properties@[k].1@ == id
}

/// The placed entity is the one the requirement asks for.
pub open spec fn is_required(e: EntityPlacement, req: EntityRequirement) -> bool {
    e.entity_type@ == req.entity_type@ && has_id(e, req.entity_id@)
}

/// Some placed entity is the one the requirement asks for.
pub open spec fn entity_present(ents: Seq<EntityPlacement>, req: EntityRequirement) -> bool {
    exists|k: int| 0 <= k < ents.len() && is_required(#[trigger] ents[k], req)
}

/// The first placed entity that the requirement asks for stands on a
/// walkable cell.
pub open spec fn entity_reachable(m: &TileMap, ents: Seq<EntityPlacement>, req: EntityRequirement) -> bool {
    exists|k: int|
        0 <= k < ents.len() && is_required(#[trigger] ents[k], req) && (forall|j: int|
            0 <= j < k ==> !is_required(#[trigger] ents[j], req)) && m.walkable_at(ents[k].x as int, ents[k].y as int)
}

/// "true" or "false".
pub open spec fn bool_text(b: bool) -> Seq<char> {
    if b { "true"@ } else { "false"@ }
}

/// The connectivity score (reachable over walkable, 0 on a map with nothing
/// walkable) reaches `min` thousandths.
pub open spec fn connectivity_passes(reachable: nat, total: nat, min: u32) -> bool {
    if total == 0 { min == 0 } else { reachable * 1000 >= min * total }
}

/// Structure coverage (non-glass over all cells) reaches `min` thousandths.
pub open spec fn coverage_passes(non_glass: nat, area: nat, min: u32) -> bool {
    area > 0 && non_glass * 1000 >= min * area
}

/// Enemies per hundred cells lie within `lo..=hi` thousandths.
pub open spec fn density_passes(enemies: nat, area: nat, lo: u32, hi: u32) -> bool {
    area > 0 && enemies * 100_000 >= lo * area && enemies * 100_000 <= hi * area
}

/// Append `b` as "true" or "false".
fn push_bool(out: &mut String, b: bool)
    ensures
        final(out)@ == old(out)@ + bool_text(b),
{
    if b {
        out.append("true");
    } else {
        out.append("false");
    }
}

/// The entity carries the property `id` with value `id`.
fn has_id_exec(e: &EntityPlacement, id: &String) -> (b: bool)
    ensures
        b == has_id(*e, id@),
{
    let key = String::from_str("id");
    let mut k: usize = 0;
    while k < e.properties.len()
        invariant
            k <= e.properties@.len(),
            key@ == "id"@,
            forall|j: int| 0 <= j < k ==> !((#[trigger] e.properties@[j]).0@ == "id"@ && e.properties@[j].1@ == id@),
        decreases e.properties@.len() - k,
    {
        if e.properties[k].0 == key && e.properties[k].1 == *id {
            return true;
        }
        k = k + 1;
    }
    false
}

impl QuestConstraintSystem {
    /// Whether an entity of the required type and id was placed.
    pub fn check_entity_presence(req: &EntityRequirement, context: &ConstraintContext) -> (b: bool)
        ensures
            b == entity_present(context.entities@, *req),
    {
        let ents = &context.entities;
        let mut k: usize = 0;
        while k < ents.len()
            invariant
                k <= ents@.len(),
                ents@ == context.entities@,
                forall|j: int| 0 <= j < k ==> !is_required(#[trigger] ents@[j], *req),
            decreases ents@.len() - k,
        {
            if ents[k].entity_type == req.entity_type && has_id_exec(&ents[k], &req.entity_id) {
                assert(is_required(ents@[k as int], *req));
                return true;
            }
            k = k + 1;
        }
        false
    }

    /// Whether the first entity of the required type and id stands on a
    /// walkable cell.
    pub fn check_entity_reachability(req: &EntityRequirement, context: &ConstraintContext) -> (b: bool)
        requires
            context.map.wf(),
        ensures
            b == entity_reachable(context.map, context.entities@, *req),
    {
        let ents = &context.entities;
        let mut k: usize = 0;
        while k < ents.len()
            invariant
                k <= ents@.len(),
                ents@ == context.entities@,
                context.map.wf(),
                forall|j: int| 0 <= j < k ==> !is_required(#[trigger] ents@[j], *req),
            decreases ents@.len() - k,
        {
            if ents[k].entity_type == req.entity_type && has_id_exec(&ents[k], &req.entity_id) {
                let r = context.map.is_walkable(ents[k].x, ents[k].y);
                proof {
                    if !r {
                        assert forall|i: int| 0 <= i < ents@.len() && is_required(#[trigger] ents@[i], *req)
                            && (forall|j: int| 0 <= j < i ==> !is_required(#[trigger] ents@[j], *req))
                            implies !context.map.walkable_at(ents@[i].x as int, ents@[i].y as int) by {
                            if i > k {
                                assert(!is_required(ents@[k as int], *req));
                            }
                        }
                    } else {
                        assert(is_required(ents@[k as int], *req));
                        assert(forall|j: int| 0 <= j < k ==> !is_required(#[trigger] ents@[j], *req));
                        assert(context.map.walkable_at(ents@[k as int].x as int, ents@[k as int].y as int));
                    }
                }
                return r;
            }
            k = k + 1;
        }
        false
    }

    /// An objective has room enough: at least its minimum of walkable cells.
    pub fn validate_spatial_requirement(
        req: &SpatialRequirement,
        context: &ConstraintContext,
        quest_id: &str,
        objective_id: &str,
    ) -> (r: ConstraintResult)
        requires
            context.map.tiles@.len() <= u32::MAX,
        ensures
            r.passed == (count_walkable(context.map.tiles@) >= req.min_accessible_area),
            r.severity == ConstraintSeverity::Critical,
            r.rule_id@ == quest_id@ + "_"@ + objective_id@ + "_spatial"@,
            r.message@ == if r.passed {
                "Objective "@ + objective_id@ + " spatial requirements satisfied"@
            } else {
                "Objective "@ + objective_id@ + " spatial requirements failed (area: "@ + decimal(
                    count_walkable(context.map.tiles@),
                ) + ", required: "@ + decimal(req.min_accessible_area as nat) + ")"@
            },
    {
        let area = Self::calculate_accessible_area(context.map);
        let passed = area >= req.min_accessible_area;
        let mut rule_id = String::new();
        rule_id.append(quest_id);
        rule_id.append("_");
        rule_id.append(objective_id);
        rule_id.append("_spatial");
        let mut message = String::new();
        message.append("Objective ");
        message.append(objective_id);
        if passed {
            message.append(" spatial requirements satisfied");
        } else {
            message.append(" spatial requirements failed (area: ");
            push_decimal(&mut message, area);
            message.append(", required: ");
            push_decimal(&mut message, req.min_accessible_area);
            message.append(")");
        }
        proof {
            assert(rule_id@ =~= quest_id@ + "_"@ + objective_id@ + "_spatial"@);
        }
        ConstraintResult { rule_id, passed, severity: ConstraintSeverity::Critical, message }
    }

    /// A needed entity was placed and, where it must be reachable, stands on a
    /// walkable cell.
    pub fn validate_entity_requirement(
        req: &EntityRequirement,
        context: &ConstraintContext,
        quest_id: &str,
        objective_id: &str,
    ) -> (r: ConstraintResult)
        requires
            context.map.wf(),
        ensures
            r.passed == (entity_present(context.entities@, *req) && (req.must_be_reachable ==> entity_reachable(
                context.map,
                context.entities@,
                *req,
            ))),
            r.severity == ConstraintSeverity::Critical,
            r.rule_id@ == quest_id@ + "_"@ + objective_id@ + "_"@ + req.entity_id@ + "_entity"@,
            r.message@ == if r.passed {
                "Entity "@ + req.entity_id@ + " requirements satisfied for objective "@ + objective_id@
            } else {
                "Entity "@ + req.entity_id@ + " requirements failed for objective "@ + objective_id@
                    + " (present: "@ + bool_text(entity_present(context.entities@, *req)) + ", reachable: "@
                    + bool_text(!req.must_be_reachable || entity_reachable(context.map, context.entities@, *req))
                    + ")"@
            },
    {
        let present = Self::check_entity_presence(req, context);
        let reachable = if req.must_be_reachable {
            Self::check_entity_reachability(req, context)
        } else {
            true
        };
        let passed = present && reachable;
        let mut rule_id = String::new();
        rule_id.append(quest_id);
        rule_id.append("_");
        rule_id.append(objective_id);
        rule_id.append("_");
        rule_id.append(req.entity_id.as_str());
        rule_id.append("_entity");
        let mut message = String::new();
        message.append("Entity ");
        message.append(req.entity_id.as_str());
        if passed {
            message.append(" requirements satisfied for objective ");
            message.append(objective_id);
        } else {
            message.append(" requirements failed for objective ");
            message.append(objective_id);
            message.append(" (present: ");
            push_bool(&mut message, present);
            message.append(", reachable: ");
            push_bool(&mut message, reachable);
            message.append(")");
        }
        proof {
            assert(rule_id@ =~= quest_id@ + "_"@ + objective_id@ + "_"@ + req.entity_id@ + "_entity"@);
        }
        ConstraintResult { rule_id, passed, severity: ConstraintSeverity::Critical, message }
    }
}

/// A ratio written with two decimals; over zero it reads as float division
/// does: `NaN` for nothing over nothing, `inf` otherwise.
pub open spec fn ratio_text(num: nat, den: nat) -> Seq<char> {
    if den == 0 {
        if num == 0 { "NaN"@ } else { "inf"@ }
    } else {
        two_decimals(hundredths(num, den))
    }
}

/// `n` is the size of the floor region that holds the first walkable cell in
/// row order (0 when nothing is walkable).
pub open spec fn first_region_size(m: &TileMap, n: nat) -> bool {
    if count_walkable(m.tiles@) == 0 {
        n == 0
    } else {
        exists|region: Seq<(i32, i32)>| #[trigger] is_floor_region(m, region) && region.len() == n && region[0] == (
            (first_walkable(m.tiles@)->0 % m.width as int) as i32,
            (first_walkable(m.tiles@)->0 / m.width as int) as i32,
        )
    }
}

/// The accessibility result for given counts.
pub open spec fn accessibility_result(
    req: AccessibilityRequirement,
    reachable: nat,
    total: nat,
    quest_id: Seq<char>,
    r: ConstraintResult,
) -> bool {
    &&& r.passed == connectivity_passes(reachable, total, req.min_connectivity_score)
    &&& r.severity == ConstraintSeverity::Critical
    &&& r.rule_id@ == quest_id + "_accessibility"@
    &&& r.message@ == if r.passed {
        "Quest "@ + quest_id + " accessibility satisfied (score: "@ + two_decimals(hundredths(reachable, total)) + ")"@
    } else {
        "Quest "@ + quest_id + " accessibility failed (score: "@ + two_decimals(hundredths(reachable, total))
            + ", required: "@ + two_decimals(hundredths(req.min_connectivity_score as nat, 1000)) + ")"@
    }
}

/// The spawn result for given counts.
pub open spec fn spawn_result(
    req: SpawnRequirement,
    non_glass: nat,
    enemies: nat,
    area: nat,
    quest_id: Seq<char>,
    r: ConstraintResult,
) -> bool {
    &&& r.passed == (coverage_passes(non_glass, area, req.min_structure_coverage) && density_passes(
        enemies,
        area,
        req.min_hostile_density,
        req.max_hostile_density,
    ))
    &&& r.severity == ConstraintSeverity::Critical
    &&& r.rule_id@ == quest_id + "_spawn"@
    &&& r.message@ == if r.passed {
        "Quest "@ + quest_id + " spawn requirements satisfied"@
    } else {
        "Quest "@ + quest_id + " spawn requirements failed (coverage: "@ + ratio_text(non_glass, area) + ", density: "@
            + ratio_text(100 * enemies, area) + ")"@
    }
}

/// Append a ratio as `ratio_text` writes it.
fn push_ratio(out: &mut String, num: u128, den: u128)
    requires
        num <= 0x1_0000_0000_0000_0000_0000,
        den <= u64::MAX,
    ensures
        final(out)@ == old(out)@ + ratio_text(num as nat, den as nat),
{
    if den == 0 {
        if num == 0 {
            out.append("NaN");
        } else {
            out.append("inf");
        }
    } else {
        let v = (200 * num + den) / (2 * den);
        push_two_decimals(out, v);
    }
}

/// A product of a 32-bit and a 64-bit count stays below 2^96.
proof fn lemma_small_product(a: int, b: int)
    requires
        0 <= a <= u32::MAX,
        0 <= b <= u64::MAX,
    ensures
        0 <= a * b <= 0x1_0000_0000_0000_0000_0000_0000,
{
    assert(0 <= a * b <= 0x1_0000_0000_0000_0000_0000_0000) by (nonlinear_arith)
        requires
            0 <= a <= u32::MAX,
            0 <= b <= u64::MAX,
    ;
}

impl QuestConstraintSystem {
    /// The walkable cells reachable from the first walkable one, and all
    /// walkable cells.
    pub fn connectivity_counts(m: &TileMap) -> (r: (usize, u32))
        requires
            m.wf(),
            m.tiles@.len() <= u32::MAX,
        ensures
            first_region_size(m, r.0 as nat),
            r.1 == count_walkable(m.tiles@),
    {
        let region = Self::reachable_from_first(m);
        let total = Self::calculate_accessible_area(m);
        proof {
            lemma_first_walkable(m.tiles@);
            if count_walkable(m.tiles@) != 0 {
                assert(is_floor_region(m, region@));
            }
        }
        (region.len(), total)
    }

    /// The accessibility result from the reachable and walkable counts.
    pub fn accessibility_from_counts(
        req: &AccessibilityRequirement,
        reachable: usize,
        total: u32,
        quest_id: &str,
    ) -> (r: ConstraintResult)
        ensures
            accessibility_result(*req, reachable as nat, total as nat, quest_id@, r),
    {
        proof {
            lemma_small_product(req.min_connectivity_score as int, total as int);
        }
        let passed = if total == 0 {
            req.min_connectivity_score == 0
        } else {
            (reachable as u128) * 1000 >= (req.min_connectivity_score as u128) * (total as u128)
        };
        let score: u128 = if total == 0 {
            0
        } else {
            (200 * (reachable as u128) + total as u128) / (2 * total as u128)
        };
        let mut rule_id = String::new();
        rule_id.append(quest_id);
        rule_id.append("_accessibility");
        let mut message = String::new();
        message.append("Quest ");
        message.append(quest_id);
        if passed {
            message.append(" accessibility satisfied (score: ");
            push_two_decimals(&mut message, score);
            message.append(")");
        } else {
            message.append(" accessibility failed (score: ");
            push_two_decimals(&mut message, score);
            message.append(", required: ");
            push_two_decimals(&mut message, (200 * (req.min_connectivity_score as u128) + 1000) / 2000);
            message.append(")");
        }
        ConstraintResult { rule_id, passed, severity: ConstraintSeverity::Critical, message }
    }

    /// The quest's tile is open enough: the region reachable from the first
    /// walkable cell covers the required share of all walkable cells.
    pub fn validate_accessibility_requirement(
        req: &AccessibilityRequirement,
        context: &ConstraintContext,
        quest_id: &str,
    ) -> (r: ConstraintResult)
        requires
            context.map.wf(),
            context.map.tiles@.len() <= u32::MAX,
        ensures
            exists|n: nat| first_region_size(context.map, n) && accessibility_result(
                *req,
                n,
                count_walkable(context.map.tiles@),
                quest_id@,
                r,
            ),
    {
        let (reachable, total) = Self::connectivity_counts(context.map);
        let r = Self::accessibility_from_counts(req, reachable, total, quest_id);
        assert(first_region_size(context.map, reachable as nat));
        r
    }

    /// The quest's tile has the structures and enemies it needs: enough
    /// non-glass cells, and an enemy density within range.
    pub fn validate_spawn_requirement(
        req: &SpawnRequirement,
        context: &ConstraintContext,
        quest_id: &str,
    ) -> (r: ConstraintResult)
        requires
            context.map.wf(),
        ensures
            spawn_result(
                *req,
                count_non_glass(context.map.tiles@),
                count_enemies(context.entities@),
                context.map.tiles@.len() as nat,
                quest_id@,
                r,
            ),
    {
        let non_glass = Self::count_structure_tiles(context.map) as u128;
        let enemies = Self::count_hostiles(&context.entities) as u128;
        let area = context.map.tiles.len() as u128;
        proof {
            lemma_small_product(req.min_structure_coverage as int, area as int);
            lemma_small_product(req.min_hostile_density as int, area as int);
            lemma_small_product(req.max_hostile_density as int, area as int);
        }
        let coverage_ok = area > 0 && non_glass * 1000 >= (req.min_structure_coverage as u128) * area;
        let density_ok = area > 0 && enemies * 100_000 >= (req.min_hostile_density as u128) * area
            && enemies * 100_000 <= (req.max_hostile_density as u128) * area;
        let passed = coverage_ok && density_ok;
        let mut rule_id = String::new();
        rule_id.append(quest_id);
        rule_id.append("_spawn");
        let mut message = String::new();
        message.append("Quest ");
        message.append(quest_id);
        if passed {
            message.append(" spawn requirements satisfied");
        } else {
            message.append(" spawn requirements failed (coverage: ");
            push_ratio(&mut message, non_glass, area);
            message.append(", density: ");
            push_ratio(&mut message, 100 * enemies, area);
            message.append(")");
        }
        ConstraintResult { rule_id, passed, severity: ConstraintSeverity::Critical, message }
    }
}

/// The lists one after another.
pub open spec fn concat_results(parts: Seq<Seq<ConstraintResult>>) -> Seq<ConstraintResult>
    decreases parts.len(),
{
    if parts.len() == 0 {
        Seq::empty()
    } else {
        concat_results(parts.drop_last()) + parts.last()
    }
}

/// The constraint is the one generated from the quest.
pub open spec fn constraint_of(q: QuestDef, c: QuestConstraint) -> bool {
    &&& c.quest_id@ == q.id@
    &&& c.objective_requirements@.len() == q.objectives@.len()
    &&& forall|i: int| 0 <= i < q.objectives@.len() ==> objective_requirement_of(q.objectives@[i], #[trigger] c.objective_requirements@[i])
    &&& c.accessibility_requirements == accessibility_of(q.category@)
    &&& spawn_requirement_of(q.category@, c.spawn_requirements)
}

/// Appending one more list.
proof fn lemma_concat_push(parts: Seq<Seq<ConstraintResult>>, more: Seq<ConstraintResult>)
    ensures
        concat_results(parts.push(more)) == concat_results(parts) + more,
{
    assert(parts.push(more).drop_last() =~= parts);
}

/// Every result is critical.
pub open spec fn all_critical(results: Seq<ConstraintResult>) -> bool {
    forall|i: int| 0 <= i < results.len() ==> (#[trigger] results[i]).severity == ConstraintSeverity::Critical
}

/// The entity check passes: the entity is there and, where it must be,
/// reachable.
pub open spec fn entity_check_passes(m: &TileMap, ents: Seq<EntityPlacement>, req: EntityRequirement) -> bool {
    entity_present(ents, req) && (req.must_be_reachable ==> entity_reachable(m, ents, req))
}

/// Every result passed.
pub open spec fn all_passed(results: Seq<ConstraintResult>) -> bool {
    forall|i: int| 0 <= i < results.len() ==> (#[trigger] results[i]).passed
}

impl QuestConstraintSystem {
    /// The spatial check of an objective followed by one check per entity it
    /// needs, in order.
    pub fn validate_objective_requirement(
        req: &ObjectiveRequirement,
        context: &ConstraintContext,
        quest_id: &str,
    ) -> (results: Vec<ConstraintResult>)
        requires
            context.map.wf(),
            context.map.tiles@.len() <= u32::MAX,
        ensures
            results@.len() == 1 + req.entity_requirements@.len(),
            all_critical(results@),
            results@[0].passed == (count_walkable(context.map.tiles@) >= req.spatial_requirements.min_accessible_area),
            forall|j: int| 0 <= j < req.entity_requirements@.len() ==> (#[trigger] results@[1 + j]).passed
                == entity_check_passes(context.map, context.entities@, req.entity_requirements@[j]),
            Self::objective_checked(*req, *context, results@),
    {
        let mut results: Vec<ConstraintResult> = Vec::new();
        results.push(Self::validate_spatial_requirement(
            &req.spatial_requirements,
            context,
            quest_id,
            req.objective_id.as_str(),
        ));
        let mut j: usize = 0;
        while j < req.entity_requirements.len()
            invariant
                context.map.wf(),
                j <= req.entity_requirements@.len(),
                results@.len() == 1 + j,
                all_critical(results@),
                results@[0].passed == (count_walkable(context.map.tiles@) >= req.spatial_requirements.min_accessible_area),
                forall|k: int| 0 <= k < j ==> (#[trigger] results@[1 + k]).passed
                    == entity_check_passes(context.map, context.entities@, req.entity_requirements@[k]),
            decreases req.entity_requirements@.len() - j,
        {
            let r = Self::validate_entity_requirement(
                &req.entity_requirements[j],
                context,
                quest_id,
                req.objective_id.as_str(),
            );
            results.push(r);
            j = j + 1;
        }
        results
    }

    /// The results of checking one objective: its area check, then one
    /// per entity requirement.
    pub open spec fn objective_checked(req: ObjectiveRequirement, context: ConstraintContext, rs: Seq<ConstraintResult>) -> bool {
        &&& rs.len() == 1 + req.entity_requirements@.len()
        &&& all_critical(rs)
        &&& rs[0].passed == (count_walkable(context.map.tiles@) >= req.spatial_requirements.min_accessible_area)
        &&& forall|j: int| 0 <= j < req.entity_requirements@.len() ==> (#[trigger] rs[1 + j]).passed == entity_check_passes(
            context.map,
            context.entities@,
            req.entity_requirements@[j],
        )
    }

    /// The results of checking one quest's constraint: accessibility, spawn,
    /// then each objective's results in order.
    pub open spec fn quest_checked(qc: QuestConstraint, context: ConstraintContext, rs: Seq<ConstraintResult>) -> bool {
        &&& rs.len() >= 2
        &&& (exists|n: nat| first_region_size(context.map, n) && accessibility_result(
            qc.accessibility_requirements,
            n,
            count_walkable(context.map.tiles@),
            qc.quest_id@,
            rs[0],
        ))
        &&& spawn_result(
            qc.spawn_requirements,
            count_non_glass(context.map.tiles@),
            count_enemies(context.entities@),
            context.map.tiles@.len() as nat,
            qc.quest_id@,
            rs[1],
        )
        &&& exists|parts: Seq<Seq<ConstraintResult>>| parts.len() == qc.objective_requirements@.len() && rs.subrange(2, rs.len() as int)
            == concat_results(parts) && forall|i: int| 0 <= i < parts.len() ==> #[trigger] Self::objective_checked(
            qc.objective_requirements@[i],
            context,
            parts[i],
        )
    }

    /// The results of checking the quests: for each quest in order, the
    /// results of checking the constraint generated from it.
    pub open spec fn quests_checked(quests: Seq<QuestDef>, context: ConstraintContext, rs: Seq<ConstraintResult>) -> bool {
        exists|blocks: Seq<Seq<ConstraintResult>>| blocks.len() == quests.len() && #[trigger] concat_results(blocks) == rs && forall|i: int|
            0 <= i < blocks.len() ==> #[trigger] Self::block_checked(quests[i], context, blocks[i])
    }

    /// The results of checking the constraint generated from the quest.
    pub open spec fn block_checked(q: QuestDef, context: ConstraintContext, rs: Seq<ConstraintResult>) -> bool {
        exists|qc: QuestConstraint| #[trigger] constraint_of(q, qc) && Self::quest_checked(qc, context, rs)
    }

    /// All checks of one quest: accessibility, spawn, then each objective's.
    pub fn validate_single_quest(qc: &QuestConstraint, context: &ConstraintContext) -> (results: Vec<ConstraintResult>)
        requires
            context.map.wf(),
            context.map.tiles@.len() <= u32::MAX,
        ensures
            results@.len() >= 2,
            all_critical(results@),
            exists|n: nat| first_region_size(context.map, n) && accessibility_result(
                qc.accessibility_requirements,
                n,
                count_walkable(context.map.tiles@),
                qc.quest_id@,
                results@[0],
            ),
            spawn_result(
                qc.spawn_requirements,
                count_non_glass(context.map.tiles@),
                count_enemies(context.entities@),
                context.map.tiles@.len() as nat,
                qc.quest_id@,
                results@[1],
            ),
            Self::quest_checked(*qc, *context, results@),
    {
        let mut results: Vec<ConstraintResult> = Vec::new();
        results.push(Self::validate_accessibility_requirement(
            &qc.accessibility_requirements,
            context,
            qc.quest_id.as_str(),
        ));
        results.push(Self::validate_spawn_requirement(&qc.spawn_requirements, context, qc.quest_id.as_str()));
        let ghost first_two = results@;
        let ghost mut parts: Seq<Seq<ConstraintResult>> = Seq::empty();
        proof {
            assert(results@.subrange(2, results@.len() as int) =~= concat_results(parts));
        }
        let mut i: usize = 0;
        while i < qc.objective_requirements.len()
            invariant
                context.map.wf(),
                context.map.tiles@.len() <= u32::MAX,
                i <= qc.objective_requirements@.len(),
                results@.len() >= 2,
                results@[0] == first_two[0],
                results@[1] == first_two[1],
                all_critical(results@),
                parts.len() == i,
                results@.subrange(2, results@.len() as int) == concat_results(parts),
                forall|k: int| 0 <= k < parts.len() ==> #[trigger] Self::objective_checked(
                    qc.objective_requirements@[k],
                    *context,
                    parts[k],
                ),
            decreases qc.objective_requirements@.len() - i,
        {
            let mut more = Self::validate_objective_requirement(
                &qc.objective_requirements[i],
                context,
                qc.quest_id.as_str(),
            );
            let ghost before = results@;
            let ghost mv = more@;
            results.append(&mut more);
            proof {
                lemma_concat_push(parts, mv);
                assert(results@.subrange(2, results@.len() as int) =~= before.subrange(2, before.len() as int) + mv);
                let ps = parts.push(mv);
                assert forall|k: int| 0 <= k < ps.len() implies #[trigger] Self::objective_checked(
                    qc.objective_requirements@[k],
                    *context,
                    ps[k],
                ) by {
                    if k < parts.len() {
                        assert(ps[k] == parts[k]);
                    }
                }
                parts = ps;
            }
            i = i + 1;
        }
        results
    }

    /// The checks of every given quest, in order. (Quests are passed resolved;
    /// ids without a definition contribute nothing.)
    pub fn validate_quest_constraints(quests: &Vec<QuestDef>, context: &ConstraintContext) -> (results: Vec<
        ConstraintResult,
    >)
        requires
            context.map.wf(),
            context.map.tiles@.len() <= u32::MAX,
        ensures
            all_critical(results@),
            quests@.len() > 0 ==> results@.len() >= 2 * quests@.len(),
            Self::quests_checked(quests@, *context, results@),
    {
        let mut results: Vec<ConstraintResult> = Vec::new();
        let ghost mut blocks: Seq<Seq<ConstraintResult>> = Seq::empty();
        proof {
            assert(results@ =~= concat_results(blocks));
        }
        let mut i: usize = 0;
        while i < quests.len()
            invariant
                context.map.wf(),
                context.map.tiles@.len() <= u32::MAX,
                i <= quests@.len(),
                all_critical(results@),
                results@.len() >= 2 * i,
                blocks.len() == i,
                results@ == concat_results(blocks),
                forall|k: int| 0 <= k < blocks.len() ==> #[trigger] Self::block_checked(quests@[k], *context, blocks[k]),
            decreases quests@.len() - i,
        {
            let qc = Self::generate_quest_constraint(&quests[i]);
            let mut more = Self::validate_single_quest(&qc, context);
            let ghost mv = more@;
            results.append(&mut more);
            proof {
                lemma_concat_push(blocks, mv);
                assert(constraint_of(quests@[i as int], qc));
                let bs = blocks.push(mv);
                assert forall|k: int| 0 <= k < bs.len() implies #[trigger] Self::block_checked(quests@[k], *context, bs[k]) by {
                    if k < blocks.len() {
                        assert(bs[k] == blocks[k]);
                    } else {
                        assert(constraint_of(quests@[k], qc) && Self::quest_checked(qc, *context, bs[k]));
                    }
                }
                blocks = bs;
            }
            i = i + 1;
        }
        results
    }

    /// Validate a generated tile for the given quests: the results, and whether
    /// every critical one passed.
    pub fn validate_tile_for_quests(
        map: &TileMap,
        quests: &Vec<QuestDef>,
        entities: Vec<EntityPlacement>,
    ) -> (r: (bool, Vec<ConstraintResult>))
        requires
            map.wf(),
            map.tiles@.len() <= u32::MAX,
        ensures
            r.0 == critical_rules_pass(r.1@),
            r.0 == all_passed(r.1@),
            exists|ctx: ConstraintContext| ctx.map == map && ctx.entities@ == entities@ && #[trigger] Self::quests_checked(
                quests@,
                ctx,
                r.1@,
            ),
    {
        let context = ConstraintContext {
            map,
            biome: crate::map::Biome::Ruins,
            entities,
            resources: Vec::new(),
            objectives: Vec::new(),
        };
        let results = Self::validate_quest_constraints(quests, &context);
        let ghost c2 = context;
        assert(c2.map == map && c2.entities@ == entities@);
        assert(Self::quests_checked(quests@, c2, results@));
        let ok = crate::constraints::ConstraintSystem::are_critical_constraints_satisfied(results.as_slice());
        let r = (ok, results);
        assert(Self::quests_checked(quests@, c2, r.1@));
        r
    }
}

} // verus!
