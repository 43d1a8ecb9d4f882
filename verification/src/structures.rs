//! Structures placed at points of interest: their kinds, bounds, rooms and
//! the parameters a structure generator is asked with.

use vstd::prelude::*;
use crate::text::{decimal, push_decimal_usize};
use crate::item::lists;

verus! {

/// Kinds of generated structure.
#[derive(Debug, Clone, Copy, PartialEq, Eq, Structural)]
pub enum StructureType {
    Dungeon,
    Town,
    Shrine,
    Ruins,
}

/// Kinds of point of interest on the world map.
#[derive(Debug, Clone, Copy, PartialEq, Eq, Structural)]
pub enum POIType {
    Dungeon,
    Town,
    Shrine,
    Landmark,
}

/// The structure built at each kind of point of interest.
pub open spec fn structure_for(p: POIType) -> StructureType {
    match p {
        POIType::Dungeon => StructureType::Dungeon,
        POIType::Town => StructureType::Town,
        POIType::Shrine => StructureType::Shrine,
        POIType::Landmark => StructureType::Ruins,
    }
}

impl POIType {
    /// The structure that is generated for this point of interest; a
    /// landmark becomes ruins.
    pub fn to_structure_type(&self) -> (t: StructureType)
        ensures
            t == structure_for(*self),
    {
        match self {
            POIType::Dungeon => StructureType::Dungeon,
            POIType::Town => StructureType::Town,
            POIType::Shrine => StructureType::Shrine,
            POIType::Landmark => StructureType::Ruins,
        }
    }
}

/// What a structure generator is asked for.
#[derive(Debug)]
pub struct StructureParams {
    pub structure_type: StructureType,
    pub size: (u32, u32),
    pub theme: String,
    pub quest_requirements: Vec<String>,
    pub biome_context: String,
    pub organic_walls: bool,
}

/// An axis-aligned rectangle of cells.
#[derive(Debug, Clone, Copy)]
pub struct Rectangle {
    pub x: u32,
    pub y: u32,
    pub width: u32,
    pub height: u32,
}

/// A room of a structure.
#[derive(Debug, Clone)]
pub struct Room {
    pub bounds: Rectangle,
    pub room_type: String,
    pub depth_from_entrance: u32,
}

/// A corridor between two cells.
#[derive(Debug)]
pub struct Corridor {
    pub start: (u32, u32),
    pub end: (u32, u32),
    pub width: u32,
}

/// A feature placed inside a structure.
#[derive(Debug)]
pub struct StructureFeature {
    pub position: (u32, u32),
    pub feature_type: String,
    pub properties: Vec<(String, String)>,
}

/// Where an entity appears when the structure is entered.
#[derive(Debug)]
pub struct SpawnPoint {
    pub position: (u32, u32),
    /// "enemy", "item" or "npc".
    pub spawn_type: String,
    pub entity_id: String,
}

/// A generated structure.
#[derive(Debug)]
pub struct Structure {
    pub structure_type: StructureType,
    pub bounds: Rectangle,
    pub rooms: Vec<Room>,
    pub corridors: Vec<Corridor>,
    pub features: Vec<StructureFeature>,
    pub spawn_points: Vec<SpawnPoint>,
    pub metadata: Vec<(String, String)>,
}

impl Clone for StructureParams {
    fn clone(&self) -> (c: Self)
        ensures
            c.structure_type == self.structure_type,
            c.size == self.size,
            c.theme@ == self.theme@,
            c.biome_context@ == self.biome_context@,
            c.organic_walls == self.organic_walls,
    {
        StructureParams {
            structure_type: self.structure_type,
            size: (self.size.0, self.size.1),
            theme: self.theme.clone(),
            quest_requirements: self.quest_requirements.clone(),
            biome_context: self.biome_context.clone(),
            organic_walls: self.organic_walls,
        }
    }
}

impl Clone for Corridor {
    fn clone(&self) -> (c: Self)
        ensures
            c == *self,
    {
        Corridor { start: (self.start.0, self.start.1), end: (self.end.0, self.end.1), width: self.width }
    }
}

impl Clone for SpawnPoint {
    fn clone(&self) -> (c: Self)
        ensures
            c == *self,
    {
        SpawnPoint {
            position: (self.position.0, self.position.1),
            spawn_type: self.spawn_type.clone(),
            entity_id: self.entity_id.clone(),
        }
    }
}

impl Rectangle {
    /// The cell `(x, y)` lies inside the rectangle.
    pub open spec fn holds(&self, x: int, y: int) -> bool {
        self.x <= x < self.x + self.width && self.y <= y < self.y + self.height
    }

    /// The rectangle's far edges fit in `u32`.
    pub open spec fn fits(&self) -> bool {
        self.x + self.width <= u32::MAX && self.y + self.height <= u32::MAX
    }

    pub fn new(x: u32, y: u32, width: u32, height: u32) -> (r: Self)
        ensures
            r == (Rectangle { x, y, width, height }),
    {
        Self { x, y, width, height }
    }

    /// Whether the cell `(x, y)` lies inside the rectangle.
    pub fn contains(&self, x: u32, y: u32) -> (b: bool)
        requires
            self.fits(),
        ensures
            b == self.holds(x as int, y as int),
    {
        x >= self.x && x < self.x + self.width && y >= self.y && y < self.y + self.height
    }
}

impl StructureParams {
    /// Parameters with the default theme and biome context, no quest
    /// requirements and straight walls.
    pub fn new(structure_type: StructureType, size: (u32, u32)) -> (p: Self)
        ensures
            p.structure_type == structure_type,
            p.size == size,
            p.theme@ == "default"@,
            p.quest_requirements@.len() == 0,
            p.biome_context@ == "default"@,
            !p.organic_walls,
    {
        Self {
            structure_type,
            size,
            theme: "default".to_owned(),
            quest_requirements: Vec::new(),
            biome_context: "default".to_owned(),
            organic_walls: false,
        }
    }
}

/// The generator of ruins at landmarks.
pub struct RuinsGenerator;

/// A room of the given kind, depth and bounds.
pub open spec fn room_is(r: Room, kind: Seq<char>, depth: u32, b: Rectangle) -> bool {
    r.room_type@ == kind && r.depth_from_entrance == depth && r.bounds == b
}

/// A spawn point of the given kind and entity at a position.
pub open spec fn spawn_is(p: SpawnPoint, pos: (u32, u32), kind: Seq<char>, entity: Seq<char>) -> bool {
    p.position == pos && p.spawn_type@ == kind && p.entity_id@ == entity
}

/// The vitrified library: a main hall with a chamber in each corner, the
/// broken saint's key in the hall and a guardian in each of the first three
/// chambers.
pub open spec fn vitrified_library(s: Structure, size: (u32, u32)) -> bool {
    &&& s.structure_type == StructureType::Ruins
    &&& s.bounds == (Rectangle { x: 0, y: 0, width: size.0, height: size.1 })
    &&& s.rooms@.len() == 5
    &&& room_is(s.rooms@[0], "main_hall"@, 1, Rectangle { x: 8, y: 6, width: 12, height: 8 })
    &&& room_is(s.rooms@[1], "chamber_1"@, 2, Rectangle { x: 2, y: 2, width: 6, height: 5 })
    &&& room_is(s.rooms@[2], "chamber_2"@, 2, Rectangle { x: 16, y: 2, width: 6, height: 5 })
    &&& room_is(s.rooms@[3], "chamber_3"@, 2, Rectangle { x: 2, y: 12, width: 6, height: 5 })
    &&& room_is(s.rooms@[4], "chamber_4"@, 2, Rectangle { x: 16, y: 12, width: 6, height: 5 })
    &&& s.spawn_points@.len() == 4
    &&& spawn_is(s.spawn_points@[0], (14, 10), "item"@, "broken_saint_key"@)
    &&& spawn_is(s.spawn_points@[1], (5, 4), "enemy"@, "glass_wraith"@)
    &&& spawn_is(s.spawn_points@[2], (19, 4), "enemy"@, "crystal_guardian"@)
    &&& spawn_is(s.spawn_points@[3], (5, 14), "enemy"@, "shard_stalker"@)
    &&& s.corridors@.len() == 0
    &&& s.features@.len() == 0
    &&& s.metadata@.len() == 2
    &&& s.metadata@[0].0@ == "theme"@ && s.metadata@[0].1@ == "vitrified_library"@
    &&& s.metadata@[1].0@ == "quest_structure"@ && s.metadata@[1].1@ == "true"@
}

fn room(kind: String, depth: u32, b: Rectangle) -> (r: Room)
    ensures
        room_is(r, kind@, depth, b),
{
    Room { bounds: b, room_type: kind, depth_from_entrance: depth }
}

fn spawn(pos: (u32, u32), kind: &str, entity: &str) -> (p: SpawnPoint)
    ensures
        spawn_is(p, pos, kind@, entity@),
{
    SpawnPoint { position: pos, spawn_type: String::from_str(kind), entity_id: String::from_str(entity) }
}

impl RuinsGenerator {
    pub fn new() -> Self {
        RuinsGenerator
    }

    /// The vitrified library laid out in a structure of the given size.
    pub fn create_vitrified_library_layout(&self, size: (u32, u32)) -> (s: Structure)
        ensures
            vitrified_library(s, size),
    {
        let bounds = Rectangle::new(0, 0, size.0, size.1);
        let mut rooms: Vec<Room> = Vec::new();
        rooms.push(room(String::from_str("main_hall"), 1, Rectangle::new(8, 6, 12, 8)));
        let chambers = [
            Rectangle::new(2, 2, 6, 5),
            Rectangle::new(16, 2, 6, 5),
            Rectangle::new(2, 12, 6, 5),
            Rectangle::new(16, 12, 6, 5),
        ];
        let mut i: usize = 0;
        while i < 4
            invariant
                i <= 4,
                rooms@.len() == i + 1,
                room_is(rooms@[0], "main_hall"@, 1, Rectangle { x: 8, y: 6, width: 12, height: 8 }),
                forall|k: int| 0 <= k < i ==> room_is(#[trigger] rooms@[k + 1], "chamber_"@ + decimal((k + 1) as nat), 2, chambers@[k]),
            decreases 4 - i,
        {
            let mut kind = String::from_str("chamber_");
            push_decimal_usize(&mut kind, i + 1);
            let ghost before = rooms@;
            rooms.push(room(kind, 2, chambers[i]));
            proof {
                assert forall|k: int| 0 <= k < i + 1 implies room_is(#[trigger] rooms@[k + 1], "chamber_"@ + decimal((k + 1) as nat), 2, chambers@[k]) by {
                    if k < i {
                        assert(rooms@[k + 1] == before[k + 1]);
                    }
                }
            }
            i = i + 1;
        }
        proof {
            reveal_strlit("chamber_");
            reveal_strlit("chamber_1");
            reveal_strlit("chamber_2");
            reveal_strlit("chamber_3");
            reveal_strlit("chamber_4");
            assert(decimal(1) == seq!['1']);
            assert(decimal(2) == seq!['2']);
            assert(decimal(3) == seq!['3']);
            assert(decimal(4) == seq!['4']);
            assert(room_is(rooms@[(0 + 1) as int], "chamber_"@ + decimal((0 + 1) as nat), 2, chambers@[0]));
            assert(room_is(rooms@[(1 + 1) as int], "chamber_"@ + decimal((1 + 1) as nat), 2, chambers@[1]));
            assert(room_is(rooms@[(2 + 1) as int], "chamber_"@ + decimal((2 + 1) as nat), 2, chambers@[2]));
            assert(room_is(rooms@[(3 + 1) as int], "chamber_"@ + decimal((3 + 1) as nat), 2, chambers@[3]));
            assert("chamber_"@ + decimal(1) =~= "chamber_1"@);
            assert("chamber_"@ + decimal(2) =~= "chamber_2"@);
            assert("chamber_"@ + decimal(3) =~= "chamber_3"@);
            assert("chamber_"@ + decimal(4) =~= "chamber_4"@);
        }
        proof {
            assert forall|k: int| 1 <= k < 5 implies (#[trigger] rooms@[k]).bounds == chambers@[k - 1] by {
                assert(room_is(rooms@[(k - 1) + 1], "chamber_"@ + decimal(((k - 1) + 1) as nat), 2, chambers@[k - 1]));
            }
        }
        let mut spawn_points: Vec<SpawnPoint> = Vec::new();
        spawn_points.push(spawn((14, 10), "item", "broken_saint_key"));
        let enemy_types = ["glass_wraith", "crystal_guardian", "shard_stalker"];
        let mut e: usize = 0;
        while e < 3
            invariant
                e <= 3,
                rooms@.len() == 5,
                forall|k: int| 1 <= k < 5 ==> (#[trigger] rooms@[k]).bounds == chambers@[k - 1],
                forall|k: int| 0 <= k < 4 ==> (#[trigger] chambers@[k]).x <= 16 && chambers@[k].y <= 12
                    && chambers@[k].width == 6 && chambers@[k].height == 5,
                spawn_points@.len() == e + 1,
                spawn_is(spawn_points@[0], (14, 10), "item"@, "broken_saint_key"@),
                forall|k: int| 0 <= k < e ==> spawn_is(#[trigger] spawn_points@[k + 1], (
                    (chambers@[k].x + chambers@[k].width / 2) as u32,
                    (chambers@[k].y + chambers@[k].height / 2) as u32,
                ), "enemy"@, enemy_types@[k]@),
            decreases 3 - e,
        {
            let room_idx = (e % (rooms.len() - 1)) + 1;
            let r = &rooms[room_idx];
            let sx = r.bounds.x + r.bounds.width / 2;
            let sy = r.bounds.y + r.bounds.height / 2;
            let ghost before = spawn_points@;
            spawn_points.push(spawn((sx, sy), "enemy", enemy_types[e]));
            proof {
                assert forall|k: int| 0 <= k < e + 1 implies spawn_is(#[trigger] spawn_points@[k + 1], (
                    (chambers@[k].x + chambers@[k].width / 2) as u32,
                    (chambers@[k].y + chambers@[k].height / 2) as u32,
                ), "enemy"@, enemy_types@[k]@) by {
                    if k < e {
                        assert(spawn_points@[k + 1] == before[k + 1]);
                    }
                }
            }
            e = e + 1;
        }
        let mut metadata: Vec<(String, String)> = Vec::new();
        metadata.push((String::from_str("theme"), String::from_str("vitrified_library")));
        metadata.push((String::from_str("quest_structure"), String::from_str("true")));
        proof {
            assert(spawn_is(spawn_points@[(0 + 1) as int], ((chambers@[0].x + chambers@[0].width / 2) as u32, (chambers@[0].y + chambers@[0].height / 2) as u32), "enemy"@, enemy_types@[0]@));
            assert(spawn_is(spawn_points@[(1 + 1) as int], ((chambers@[1].x + chambers@[1].width / 2) as u32, (chambers@[1].y + chambers@[1].height / 2) as u32), "enemy"@, enemy_types@[1]@));
            assert(spawn_is(spawn_points@[(2 + 1) as int], ((chambers@[2].x + chambers@[2].width / 2) as u32, (chambers@[2].y + chambers@[2].height / 2) as u32), "enemy"@, enemy_types@[2]@));
        }
        Structure {
            structure_type: StructureType::Ruins,
            bounds,
            rooms,
            corridors: Vec::new(),
            features: Vec::new(),
            spawn_points,
            metadata,
        }
    }

    /// Ruins are generated for the vitrified library theme, or when a quest
    /// asks for the broken key; nothing else is generated.
    pub fn generate(&self, params: &StructureParams) -> (r: Option<Structure>)
        ensures
            (params.structure_type == StructureType::Ruins && (params.theme@ == "vitrified_library"@
                || lists(params.quest_requirements@, "the_broken_key"@))) ==> (r matches Some(s) && vitrified_library(s, params.size)),
            !(params.structure_type == StructureType::Ruins && (params.theme@ == "vitrified_library"@
                || lists(params.quest_requirements@, "the_broken_key"@))) ==> r is None,
    {
        match params.structure_type {
            StructureType::Ruins => {
                if params.theme == String::from_str("vitrified_library")
                    || crate::item::contains_str(&params.quest_requirements, &String::from_str("the_broken_key")) {
                    Some(self.create_vitrified_library_layout(params.size))
                } else {
                    None
                }
            },
            _ => None,
        }
    }

    /// The points of interest ruins are generated for.
    pub fn get_supported_poi_types(&self) -> (v: Vec<POIType>)
        ensures
            v@ == seq![POIType::Landmark],
    {
        let mut v = Vec::new();
        v.push(POIType::Landmark);
        v
    }
}

} // verus!
