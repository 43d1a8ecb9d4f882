use rand::SeedableRng;
use rand_chacha::ChaCha8Rng;
use saltglass_gen::algorithm::{GenerationError, ValidationError};
use saltglass_gen::algorithms::dla::DLAAlgorithm;
use saltglass_gen::algorithms::simple_rooms::{SimpleRoomsAlgorithm, SimpleRoomsParams};
use saltglass_gen::connectivity::{bresenham_line, floor_regions};
use saltglass_gen::constraints::ConstraintSystem;
use saltglass_gen::inspect::{inspect_item, EnemyView, GameState, NpcView, PlacedLight};
use saltglass_gen::light_defs::LightDef;
use saltglass_gen::interactable::{Interactable, InteractableDef, InteractableMessages, InteractableRegistry};
use saltglass_gen::item::{get_item_def, Item, ItemDef, ItemRegistry};
use saltglass_gen::weapon::{get_weapon_def, WeaponDef, WeaponRegistry};
use saltglass_gen::keyboard_config::{parse_key, Key};
use saltglass_gen::light_defs::{get_spawn_rule, LightsData, SpawnRule};
use saltglass_gen::map::{Tile, TileMap};
use saltglass_gen::settlement::layout::{calculate_dimensions, generate_layout, ShelfPacker, SettlementTier};
use saltglass_gen::settlement::stamp::{effective_dims, road_links, rotate_coords, rotated_side};
use saltglass_gen::spawn::{weighted_pick_by_roll, SpawnTable, WeightedSpawn};
use saltglass_gen::poi::POI;
use saltglass_gen::tile_content::{spawn_enemies, spawn_items, spawn_npcs, tile_enemies};
use saltglass_gen::structure_library::{Structure, StructureLibrary, StructureMetadata, StructureUsage};
use saltglass_gen::structures::Rectangle;
use saltglass_gen::text::{decimal_string, replace_all};

#[test]
fn decimal_and_replacement_texts() {
    assert_eq!(decimal_string(0), "0");
    assert_eq!(decimal_string(1234), "1234");
    assert_eq!(decimal_string(u32::MAX), "4294967295");
    assert_eq!(replace_all("It is {state}, {state}.", "{state}", "on"), "It is on, on.");
    assert_eq!(replace_all("aaa", "aa", "b"), "ba");
    assert_eq!(replace_all("plain", "{x}", "y"), "plain");
}

#[test]
fn key_names() {
    assert_eq!(parse_key("Up"), Key::Up);
    assert_eq!(parse_key("Esc"), Key::Esc);
    assert_eq!(parse_key("F12"), Key::F(12));
    assert_eq!(parse_key("Fx"), Key::Char('F'));
    assert_eq!(parse_key("x"), Key::Char('x'));
    assert_eq!(parse_key("abc"), Key::Char(' '));
}

#[test]
fn error_descriptions() {
    assert_eq!(GenerationError::InvalidParameters("bad".to_string()).describe(), "Invalid parameters: bad");
    assert_eq!(GenerationError::Other("x".to_string()).describe(), "Generation error: x");
    let with_field = ValidationError { message: "too big".to_string(), field: Some("width".to_string()) };
    assert_eq!(with_field.describe(), "Validation error in width: too big");
    let bare = ValidationError { message: "oops".to_string(), field: None };
    assert_eq!(bare.describe(), "Validation error: oops");
}

fn lever() -> InteractableDef {
    InteractableDef {
        id: "lever".to_string(),
        name: "Lever".to_string(),
        glyph: '/',
        description: "A rusty lever".to_string(),
        interaction_type: "toggle".to_string(),
        states: vec!["up".to_string(), "down".to_string()],
        messages: InteractableMessages {
            interact: "Clunk.".to_string(),
            examine: "The lever is {state}.".to_string(),
        },
    }
}

#[test]
fn interactable_toggle_press_and_examine() {
    let mut button = lever();
    button.id = "button".to_string();
    button.interaction_type = "press".to_string();
    let registry = InteractableRegistry { defs: vec![lever(), button] };
    let mut l = Interactable::new("lever".to_string(), 1, 2);
    assert_eq!(l.examine(&registry), Some("The lever is up.".to_string()));
    assert_eq!(l.interact(&registry), Some("Clunk.".to_string()));
    assert_eq!(l.current_state, 1);
    l.interact(&registry);
    assert_eq!(l.current_state, 0);
    let mut b = Interactable::new("button".to_string(), 0, 0);
    b.interact(&registry);
    b.interact(&registry);
    assert_eq!(b.current_state, 1);
    let ghost = Interactable::new("nothing".to_string(), 0, 0);
    assert_eq!(ghost.examine(&registry), None);
    assert_eq!(ghost.glyph(&registry), '?');
    assert_eq!(ghost.name(&registry), "Unknown");
    assert_eq!(l.glyph(&registry), '/');
}

fn item(id: &str) -> ItemDef {
    ItemDef {
        id: id.to_string(),
        name: "Salt Tonic".to_string(),
        glyph: "!".to_string(),
        description: "Bitter.".to_string(),
        value: 5,
        weight: 1,
        usable: true,
        heal: 10,
        reveals_map: false,
        suppresses_adaptations: false,
        breaks_walls: false,
        reveals_storm_path: false,
        reduces_refraction: 0,
        grants_invisibility: false,
        reveals_storm_timing: false,
        reveals_locations: false,
        stackable: true,
        grows_over_time: false,
        armor_value: 0,
        equip_slot: None,
        effects: vec![],
        hidden_properties: vec!["weight".to_string()],
        pickup: true,
        light_source: None,
        tier: 1,
    }
}

#[test]
fn item_lookup_and_inspection() {
    let registry = ItemRegistry { defs: vec![item("tonic")] };
    assert!(get_item_def(&registry, "tonic").is_some());
    assert!(get_item_def(&registry, "none").is_none());
    let it = Item::new(3, 4, "tonic");
    assert_eq!(it.glyph(&registry), '!');
    assert_eq!(it.name(&registry), "Salt Tonic");
    assert_eq!(Item::new(0, 0, "none").name(&registry), "Unknown");
    let no_weapons = WeaponRegistry { defs: vec![] };
    let info = inspect_item(&no_weapons, &registry, "tonic").unwrap();
    assert_eq!(info.item_type, "Consumable");
    assert_eq!(
        info.stats,
        vec![("value".to_string(), "5".to_string()), ("heal".to_string(), "+10 HP".to_string())]
    );
    let state = carrying(5, 5, "tonic");
    assert!(state.inspect_inventory(&no_weapons, &registry, 0).is_some());
    assert!(state.inspect_inventory(&no_weapons, &registry, 1).is_none());
    assert_eq!(state.direction_from(5, 2), "to the north");
    assert_eq!(state.direction_from(9, 9), "to the southeast");
    assert_eq!(state.direction_from(5, 5), "nearby");
}

fn spawn(id: &str, weight: u32) -> WeightedSpawn {
    WeightedSpawn { id: id.to_string(), weight, room: None, min_level: 1, max_level: 10 }
}

#[test]
fn weighted_rolls_land_exactly() {
    let spawns = vec![spawn("a", 3), spawn("b", 0), spawn("c", 2)];
    assert_eq!(weighted_pick_by_roll(&spawns, 0), Some("a"));
    assert_eq!(weighted_pick_by_roll(&spawns, 2), Some("a"));
    assert_eq!(weighted_pick_by_roll(&spawns, 3), Some("c"));
    assert_eq!(weighted_pick_by_roll(&spawns, 5), None);
}

#[test]
fn light_spawn_rule_falls_back_to_default() {
    let data = LightsData {
        lights: vec![],
        spawn_rules: vec![
            ("default".to_string(), SpawnRule { lights_per_room: [1, 2], weights: vec![("torch".to_string(), 1)] }),
            ("ruins".to_string(), SpawnRule { lights_per_room: [0, 1], weights: vec![] }),
        ],
    };
    assert_eq!(get_spawn_rule(&data, "ruins").lights_per_room, [0, 1]);
    assert_eq!(get_spawn_rule(&data, "oasis").lights_per_room, [1, 2]);
}

fn small_map(rows: &[&str]) -> TileMap {
    let h = rows.len();
    let w = rows[0].len();
    let mut m = TileMap::new(w, h);
    for (y, row) in rows.iter().enumerate() {
        for (x, c) in row.chars().enumerate() {
            if c == '.' {
                m.set_tile(x, y, Tile::Floor { id: "stone".to_string() });
            }
        }
    }
    m
}

#[test]
fn lines_regions_and_neighbours() {
    let line = bresenham_line((0, 0), (5, 2));
    assert_eq!(line.len(), 6);
    assert_eq!(line[0], (0, 0));
    assert_eq!(line[5], (5, 2));
    for w in line.windows(2) {
        let gap = (w[1].0 - w[0].0).abs().max((w[1].1 - w[0].1).abs());
        assert_eq!(gap, 1);
    }
    let steep = bresenham_line((3, -4), (1, 6));
    assert_eq!(steep.len(), 11);
    assert_eq!(steep[10], (1, 6));
    let long = bresenham_line((-1_000_000, 0), (1_000_000, -7));
    assert_eq!(long.len(), 2_000_001);
    assert_eq!(long[2_000_000], (1_000_000, -7));
    assert_eq!(bresenham_line((4, 4), (4, 4)), vec![(4, 4)]);
    let m = small_map(&["..#..", "..#..", "#####"]);
    let regions = floor_regions(&m);
    assert_eq!(regions.len(), 2);
    assert_eq!(regions.iter().map(|r| r.len()).sum::<usize>(), 8);
    assert_eq!(ConstraintSystem::count_adjacent_floors(&m, 0, 0), 3);
    let corridor = small_map(&["......"]);
    assert_eq!(ConstraintSystem::calculate_path_length(&corridor, (0, 0), (5, 0)), 5);
}

#[test]
fn settlement_rotation_helpers() {
    assert_eq!(effective_dims(4, 2, 90), (2, 4));
    assert_eq!(effective_dims(4, 2, 180), (4, 2));
    assert_eq!(rotated_side("north", 90), "east");
    assert_eq!(rotated_side("west", 180), "east");
    assert_eq!(rotated_side("nowhere", 0), "south");
    assert_eq!(rotate_coords(0, 0, 4, 2, 90), (1, 0));
    assert_eq!(rotate_coords(3, 1, 4, 2, 180), (0, 0));
    assert_eq!(calculate_dimensions(SettlementTier::Village), (80, 60));
}

#[test]
fn road_links_join_then_loop() {
    let edges = vec![(0, 1), (1, 2), (0, 2), (2, 3), (3, 4), (1, 4)];
    let links = road_links(5, &edges);
    assert_eq!(links.len(), 5);
    for e in [(0, 1), (1, 2), (2, 3), (3, 4)] {
        assert!(links.contains(&e));
    }
}

#[test]
fn shelf_packer_places_without_overlap() {
    let mut packer = ShelfPacker::new(SettlementTier::Village, 80, 60, None);
    let mut placed = 0;
    while packer.wants_more() && placed < 20 {
        packer.place("hut".to_string(), 8, 6);
        placed += 1;
    }
    let b = &packer.buildings;
    for i in 0..b.len() {
        for j in 0..i {
            let apart = b[i].x >= b[j].x + 8 || b[j].x >= b[i].x + 8 || b[i].y >= b[j].y + 6 || b[j].y >= b[i].y + 6;
            assert!(apart);
        }
    }
}

fn structure(id: &str, tag: &str) -> Structure {
    let mut metadata = StructureMetadata::default();
    metadata.tags = vec![tag.to_string()];
    Structure {
        id: id.to_string(),
        usage: StructureUsage::Standalone,
        width: 1,
        height: 1,
        pattern: vec![vec!['.']],
        legend: vec![],
        metadata,
    }
}

#[test]
fn structure_library_insert_then_get() {
    let mut lib = StructureLibrary::new();
    lib.insert(structure("hut", "residential"));
    lib.insert(structure("well", "core"));
    lib.insert(structure("hut", "core"));
    assert_eq!(lib.len(), 2);
    assert_eq!(lib.get("hut").unwrap().metadata.tags, vec!["core".to_string()]);
    assert!(lib.get("tower").is_none());
    assert_eq!(lib.by_tag("core").len(), 2);
    assert_eq!(lib.by_tag("residential").len(), 0);
}

#[test]
fn seeded_room_and_cave_generators() {
    let rooms = SimpleRoomsAlgorithm::new(SimpleRoomsParams::default());
    let bounds = Rectangle { x: 0, y: 0, width: 60, height: 40 };
    let mut rng = ChaCha8Rng::seed_from_u64(12345);
    let (placed, corridor) = rooms.generate(bounds, &mut rng);
    assert!(!placed.is_empty());
    for r in &placed {
        assert!(r.bounds.x + r.bounds.width <= 60 && r.bounds.y + r.bounds.height <= 40);
    }
    if placed.len() > 1 {
        assert!(!corridor.is_empty());
    }
    let dla = DLAAlgorithm::with_params(2, 5, 200);
    let mut rng = ChaCha8Rng::seed_from_u64(7);
    let cave = dla.generate(&mut rng);
    assert!(cave.tiles.iter().any(|t| matches!(t, Tile::Floor { .. })));
    let floors = cave.tiles.iter().filter(|t| matches!(t, Tile::Floor { .. })).count();
    assert!(floors <= 2 + 5);
    let seedless = DLAAlgorithm::with_params(0, 5, 200);
    let bare = seedless.generate(&mut rng);
    assert!(bare.tiles.iter().all(|t| !matches!(t, Tile::Floor { .. })));
}

#[test]
fn path_length_is_the_shortest_walk() {
    let m = small_map(&["....#", ".##.#", "....."]);
    assert_eq!(ConstraintSystem::calculate_path_length(&m, (0, 0), (3, 1)), 4);
    assert_eq!(ConstraintSystem::calculate_path_length(&m, (0, 0), (4, 2)), 6);
    let walled = small_map(&["..#.."]);
    assert_eq!(ConstraintSystem::calculate_path_length(&walled, (0, 0), (4, 0)), 0);
    assert_eq!(ConstraintSystem::calculate_path_length(&walled, (1, 0), (1, 0)), 0);
}

#[test]
fn layout_has_one_position_per_grid_point() {
    let mut rng = ChaCha8Rng::seed_from_u64(3);
    let ps = generate_layout(SettlementTier::Village, 60, 40, &mut rng);
    assert_eq!(ps.len(), 6);
    for (k, p) in ps.iter().enumerate() {
        let gx = 8 + 18 * (k as i32 % 3);
        let gy = 8 + 14 * (k as i32 / 3);
        assert!(p.0 >= 8 && (p.0 - gx).abs() <= 4);
        assert!(p.1 >= 8 && (p.1 - gy).abs() <= 3);
    }
}

#[test]
fn packer_wraps_and_stops() {
    let mut packer = ShelfPacker::new(SettlementTier::Village, 20, 14, None);
    packer.place(String::from("hut"), 6, 4);
    assert_eq!(packer.buildings.len(), 1);
    assert_eq!((packer.buildings[0].x, packer.buildings[0].y), (2, 2));
    assert_eq!(packer.cursor_x, 10);
    packer.place(String::from("hut"), 8, 3);
    assert_eq!(packer.buildings.len(), 1 + 1);
    assert_eq!((packer.buildings[1].x, packer.buildings[1].y), (10, 2));
    packer.place(String::from("hut"), 6, 3);
    assert_eq!(packer.buildings.len(), 3);
    assert_eq!((packer.buildings[2].x, packer.buildings[2].y), (2, 8));
    packer.place(String::from("hall"), 15, 9);
    assert!(packer.done);
    assert_eq!(packer.buildings.len(), 3);
}

fn shard_knife() -> WeaponDef {
    WeaponDef {
        id: "shard_knife".to_string(),
        name: "Shard Knife".to_string(),
        description: "A sliver of fused glass.".to_string(),
        damage_min: 2,
        damage_max: 5,
        accuracy: 85,
        range: 1,
        ap_cost: 2,
    }
}

#[test]
fn weapons_are_inspected_before_items() {
    let weapons = WeaponRegistry { defs: vec![shard_knife()] };
    let mut shadow = item("shard_knife");
    shadow.name = "Not a weapon".to_string();
    let items = ItemRegistry { defs: vec![shadow, item("tonic")] };
    assert!(get_weapon_def(&weapons, "shard_knife").is_some());
    assert!(get_weapon_def(&weapons, "tonic").is_none());
    let info = inspect_item(&weapons, &items, "shard_knife").unwrap();
    assert_eq!(info.name, "Shard Knife");
    assert_eq!(info.description, "A sliver of fused glass.");
    assert_eq!(info.item_type, "Weapon");
    assert_eq!(
        info.stats,
        vec![
            ("Damage".to_string(), "2-5".to_string()),
            ("Accuracy".to_string(), "85%".to_string()),
            ("Range".to_string(), "1".to_string()),
            ("AP Cost".to_string(), "2".to_string()),
        ]
    );
    assert_eq!(inspect_item(&weapons, &items, "tonic").unwrap().item_type, "Consumable");
    assert!(inspect_item(&weapons, &items, "nothing").is_none());
    let state = carrying(0, 0, "shard_knife");
    assert_eq!(state.inspect_inventory(&weapons, &items, 0).unwrap().item_type, "Weapon");
}

fn entry(id: &str, weight: u32) -> WeightedSpawn {
    WeightedSpawn { id: id.to_string(), weight, room: None, min_level: 1, max_level: 10 }
}

fn open_field(w: usize, h: usize) -> (TileMap, Vec<(i32, i32)>) {
    let mut m = TileMap::new(w, h);
    let mut cells = Vec::new();
    for y in 0..h {
        for x in 0..w {
            m.set_tile(x, y, Tile::Floor { id: "sand".to_string() });
            cells.push((x as i32, y as i32));
        }
    }
    (m, cells)
}

#[test]
fn tile_population_respects_distances_and_tiers() {
    let (map, walkable) = open_field(60, 60);
    let registry = ItemRegistry { defs: vec![item("tonic"), ItemDef { tier: 4, ..item("relic") }] };
    let table = SpawnTable {
        items: vec![entry("tonic", 3), entry("relic", 3)],
        enemies: vec![entry("scorpion", 5)],
        npcs: vec![entry("trader", 10)],
    };
    let mut rng = ChaCha8Rng::seed_from_u64(11);
    let spawn = (5, 5);
    let enemies = spawn_enemies(&registry, &table, &walkable, spawn, POI::Dungeon, 1, &mut rng);
    assert!(!enemies.is_empty() && enemies.len() <= 5);
    for (k, e) in enemies.iter().enumerate() {
        assert!((e.0 - 5).abs() >= 15 || (e.1 - 5).abs() >= 15);
        assert_eq!(e.2, "scorpion");
        for f in &enemies[..k] {
            assert!((e.0 - f.0).abs() >= 20 || (e.1 - f.1).abs() >= 20);
        }
    }
    assert!(spawn_enemies(&registry, &table, &walkable, spawn, POI::Town, 1, &mut rng).is_empty());
    let fixed = vec![(1, 2, "golem".to_string())];
    assert_eq!(tile_enemies(&fixed, &registry, &table, &walkable, spawn, POI::Dungeon, 1, &mut rng), fixed);

    let items = spawn_items(&registry, &table, &map, &vec![], 1, &mut rng);
    assert!(!items.is_empty() && items.len() <= 3);
    for (k, it) in items.iter().enumerate() {
        assert_eq!(it.2, "tonic");
        for other in &items[..k] {
            assert!((other.0, other.1) != (it.0, it.1));
        }
    }
    let quest = vec![(1, 1, "a".to_string()), (2, 2, "b".to_string()), (3, 3, "c".to_string())];
    assert_eq!(spawn_items(&registry, &table, &map, &quest, 1, &mut rng), quest);

    let npcs = spawn_npcs(&table, &walkable, spawn, &mut rng);
    assert!(npcs.len() <= 1);
    for n in &npcs {
        assert_eq!(n.2, "trader");
        assert!((n.0 - 5).abs() >= 8 || (n.1 - 5).abs() >= 8);
    }
    let near: Vec<(i32, i32)> = vec![(5, 5), (6, 6)];
    assert!(spawn_npcs(&table, &near, spawn, &mut rng).is_empty());
}

fn carrying(x: i32, y: i32, id: &str) -> GameState {
    GameState {
        player_x: x,
        player_y: y,
        inventory: vec![id.to_string()],
        map: TileMap::new(10, 10),
        visible: vec![],
        revealed: vec![],
        enemies: vec![],
        npcs: vec![],
        items: vec![],
        lights: vec![],
    }
}

#[test]
fn look_mode_names_what_stands_on_a_cell() {
    let mut state = carrying(1, 1, "tonic");
    state.visible = (0..30).collect();
    state.revealed = vec![55];
    state.enemies = vec![
        EnemyView { x: 2, y: 1, hp: 0, name: "Dead Crab".to_string(), demeanor: "Hostile".to_string(), description: None },
        EnemyView { x: 2, y: 1, hp: 7, name: "Salt Crab".to_string(), demeanor: "Hostile".to_string(), description: None },
    ];
    state.npcs = vec![NpcView { x: 3, y: 1, name: "Mira".to_string(), description: Some("A glass trader".to_string()) }];
    state.items = vec![Item::new(4, 1, "tonic"), Item::new(5, 1, "shard_knife"), Item::new(6, 1, "nothing")];
    state.lights = vec![PlacedLight { x: 6, y: 1, id: "torch".to_string() }];
    let items = ItemRegistry { defs: vec![item("tonic")] };
    let weapons = WeaponRegistry { defs: vec![shard_knife()] };
    let lights = LightsData {
        lights: vec![LightDef {
            id: "torch".to_string(),
            name: "Torch".to_string(),
            glyph: "*".to_string(),
            radius: 4,
            intensity: 200,
            color: "orange".to_string(),
        }],
        spawn_rules: vec![],
    };
    let look = |x: i32, y: i32| state.describe_at(&weapons, &items, &lights, x, y, Some("Sand - Fine grains.".to_string()));
    assert_eq!(look(1, 1), "You");
    assert_eq!(look(2, 1), "Salt Crab (HP: 7, hostile) - A creature");
    assert_eq!(look(3, 1), "Mira - A glass trader");
    assert_eq!(look(4, 1), "Salt Tonic (consumable) - Bitter.");
    assert_eq!(look(5, 1), "Shard Knife (weapon) - A sliver of fused glass.");
    assert_eq!(look(6, 1), "Torch (light source)");
    assert_eq!(look(7, 1), "Sand - Fine grains.");
    assert_eq!(look(5, 5), "Sand - Fine grains.");
    assert_eq!(look(9, 9), "Unknown");
    assert_eq!(look(-1, 0), "Unknown");
    assert_eq!(state.describe_at(&weapons, &items, &lights, 8, 0, None), "Void");
}
