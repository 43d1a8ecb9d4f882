use rand::SeedableRng;
use rand_chacha::ChaCha8Rng;
use saltglass_gen::algorithms::bsp::{BSPAlgorithm, BSPParams};
use saltglass_gen::algorithms::maze::{MazeAlgorithm, MazeGenerator, MazeParams};
use saltglass_gen::constraints::{ConstraintContext, ConstraintSeverity, EntityPlacement};
use saltglass_gen::layered::{
    blend_layer, carve_corridor, carve_rect, smooth_step, stone_layer, BlendMode, LayerConfig, LayerParams,
    LayeredGenerationConfig, LayeredGenerator,
};
use saltglass_gen::map::{Biome, Tile, TileMap, MAP_HEIGHT, MAP_WIDTH};
use saltglass_gen::narrative::{can_place_fragment, discover_fragment, get_fragments_near, PlacedFragment, PlacementRules};
use saltglass_gen::quest_constraints::{ObjectiveType, QuestConstraintSystem, QuestDef, QuestObjective};
use saltglass_gen::spatial::distribute_points_grid;
use saltglass_gen::structures::Rectangle;
use saltglass_gen::tile_generator::{attempt_action, find_safe_spawn_position, AttemptAction, MAX_ATTEMPTS};
use saltglass_gen::tunnel_selection::connect_required_regions;
use saltglass_gen::connectivity::TunnelEdge;

fn is_stone_floor(t: &Tile) -> bool {
    matches!(t, Tile::Floor { id } if id == "stone")
}

fn is_stone_wall(t: &Tile) -> bool {
    matches!(t, Tile::Wall { id, hp } if id == "stone" && *hp == 100)
}

fn at(m: &TileMap, x: usize, y: usize) -> &Tile {
    &m.tiles[y * m.width + x]
}

fn params() -> LayerParams {
    LayerParams {
        initial_wall_chance: None,
        room_count: None,
        walker_count: None,
        max_steps: None,
        iterations: None,
        threshold: None,
        corridor_width: None,
        max_corridors: None,
    }
}

#[test]
fn carve_rect_exact_cells() {
    let mut m = stone_layer();
    carve_rect(&mut m, 3, 4, 2, 3);
    assert!(is_stone_floor(at(&m, 3, 4)));
    assert!(is_stone_floor(at(&m, 4, 6)));
    assert!(is_stone_wall(at(&m, 5, 4)));
    assert!(is_stone_wall(at(&m, 3, 7)));
    let floors = m.tiles.iter().filter(|t| is_stone_floor(t)).count();
    assert_eq!(floors, 6);
}

#[test]
fn corridor_skips_its_end_cell() {
    let mut m = stone_layer();
    carve_corridor(&mut m, 2, 2, 5, 4, 1);
    for x in 2..5 {
        assert!(is_stone_floor(at(&m, x, 2)));
    }
    assert!(is_stone_floor(at(&m, 5, 2)));
    assert!(is_stone_floor(at(&m, 5, 3)));
    assert!(is_stone_wall(at(&m, 5, 4)));
    assert_eq!(m.tiles.iter().filter(|t| is_stone_floor(t)).count(), 5);
}

#[test]
fn smoothing_keeps_a_full_block_and_drops_a_speck() {
    let mut m = stone_layer();
    carve_rect(&mut m, 10, 10, 3, 3);
    carve_rect(&mut m, 30, 30, 1, 1);
    let s = smooth_step(&m, 4);
    assert!(is_stone_floor(at(&s, 11, 11)));
    assert!(is_stone_floor(at(&s, 10, 10)));
    assert!(is_stone_wall(at(&s, 30, 30)));
    assert!(is_stone_wall(at(&s, 0, 0)));
}

#[test]
fn blend_modes_on_fixed_layers() {
    let mut rng = ChaCha8Rng::seed_from_u64(3);
    let mut base = stone_layer();
    carve_rect(&mut base, 1, 1, 2, 1);
    let mut layer = stone_layer();
    carve_rect(&mut layer, 2, 1, 2, 1);
    let mut d = stone_layer();
    carve_rect(&mut d, 1, 1, 2, 1);
    blend_layer(&mut d, &layer, BlendMode::Difference, &mut rng);
    assert!(is_stone_floor(at(&d, 1, 1)));
    assert!(is_stone_wall(at(&d, 2, 1)));
    assert!(is_stone_floor(at(&d, 3, 1)));
    blend_layer(&mut base, &layer, BlendMode::Intersection, &mut rng);
    assert!(is_stone_wall(at(&base, 1, 1)));
    assert!(is_stone_floor(at(&base, 2, 1)));
    assert!(is_stone_wall(at(&base, 3, 1)));
    let mut r = stone_layer();
    blend_layer(&mut r, &layer, BlendMode::Replace, &mut rng);
    assert!(is_stone_floor(at(&r, 3, 1)));
}

#[test]
fn layered_generation_is_stone_and_deterministic() {
    let config = LayeredGenerationConfig {
        layers: vec![
            LayerConfig { algorithm: "simple_rooms".to_string(), params: params(), blend_mode: BlendMode::Additive },
            LayerConfig { algorithm: "drunkard_walk".to_string(), params: params(), blend_mode: BlendMode::Screen },
            LayerConfig { algorithm: "smooth".to_string(), params: params(), blend_mode: BlendMode::Overlay },
        ],
        blend_mode: BlendMode::Additive,
    };
    let g = LayeredGenerator::new(config);
    let a = g.generate(99);
    let b = g.generate(99);
    assert_eq!(a.tiles.len(), MAP_WIDTH * MAP_HEIGHT);
    assert!(a.tiles.iter().all(|t| is_stone_floor(t) || is_stone_wall(t)));
    assert!(a.tiles.iter().any(|t| is_stone_floor(t)));
    let fa: Vec<bool> = a.tiles.iter().map(is_stone_floor).collect();
    let fb: Vec<bool> = b.tiles.iter().map(is_stone_floor).collect();
    assert_eq!(fa, fb);
    let empty = LayeredGenerator::new(LayeredGenerationConfig { layers: vec![], blend_mode: BlendMode::Replace });
    assert!(empty.generate(1).tiles.iter().all(is_stone_wall));
}

#[test]
fn noise_layer_extremes() {
    let g = LayeredGenerator::new(LayeredGenerationConfig { layers: vec![], blend_mode: BlendMode::Replace });
    let mut rng = ChaCha8Rng::seed_from_u64(5);
    let open = LayerConfig {
        algorithm: "cellular_automata".to_string(),
        params: LayerParams { initial_wall_chance: Some(0), ..params() },
        blend_mode: BlendMode::Replace,
    };
    let m = g.generate_layer(&open, &mut rng);
    assert!(is_stone_floor(at(&m, 1, 1)));
    assert!(is_stone_wall(at(&m, 0, 0)));
    assert_eq!(m.tiles.iter().filter(|t| is_stone_floor(t)).count(), (MAP_WIDTH - 2) * (MAP_HEIGHT - 2));
    let closed = LayerConfig {
        algorithm: "cellular_automata".to_string(),
        params: LayerParams { initial_wall_chance: Some(1_000_000), ..params() },
        blend_mode: BlendMode::Replace,
    };
    let m2 = g.generate_layer(&closed, &mut rng);
    assert!(m2.tiles.iter().all(is_stone_wall));
}

#[test]
fn safe_spawn_prefers_centre_then_first_walkable() {
    let mut m = stone_layer();
    carve_rect(&mut m, 5, 5, 1, 1);
    carve_rect(&mut m, 130, 60, 1, 1);
    assert_eq!(find_safe_spawn_position(&m), (130, 60));
    let mut m2 = stone_layer();
    carve_rect(&mut m2, 7, 3, 1, 1);
    assert_eq!(find_safe_spawn_position(&m2), (7, 3));
    let m3 = stone_layer();
    assert_eq!(find_safe_spawn_position(&m3), (125, 55));
}

#[test]
fn quest_constraint_tables() {
    let def = QuestDef {
        id: "q1".to_string(),
        category: "main".to_string(),
        objectives: vec![
            QuestObjective { id: "o1".to_string(), objective_type: ObjectiveType::TalkTo { npc_id: "elder".to_string() } },
            QuestObjective { id: "o2".to_string(), objective_type: ObjectiveType::Kill },
        ],
    };
    let c = QuestConstraintSystem::generate_quest_constraint(&def);
    assert_eq!(c.quest_id, "q1");
    assert_eq!(c.objective_requirements.len(), 2);
    assert_eq!(c.objective_requirements[0].spatial_requirements.min_accessible_area, 4);
    assert_eq!(c.objective_requirements[0].spatial_requirements.max_distance_from_spawn, Some(150));
    assert_eq!(c.objective_requirements[0].entity_requirements[0].entity_id, "elder");
    assert_eq!(c.objective_requirements[0].entity_requirements[0].min_spawn_chance, 900);
    assert!(c.objective_requirements[1].entity_requirements.is_empty());
    assert_eq!(c.accessibility_requirements.min_connectivity_score, 900);
    assert_eq!(c.spawn_requirements.required_biomes, vec!["ruins".to_string()]);
    assert_eq!(c.spawn_requirements.min_hostile_density, 300);
}

#[test]
fn quest_validation_on_small_map() {
    let mut m = TileMap::new(4, 3);
    for x in 0..3 {
        m.set_tile(x, 1, Tile::Floor { id: "stone".to_string() });
    }
    m.set_tile(3, 2, Tile::Floor { id: "stone".to_string() });
    assert_eq!(QuestConstraintSystem::calculate_accessible_area(&m), 4);
    let (reach, total) = QuestConstraintSystem::connectivity_counts(&m);
    assert_eq!((reach, total), (3, 4));
    let entities = vec![EntityPlacement {
        entity_type: "npc".to_string(),
        x: 1,
        y: 1,
        properties: vec![("id".to_string(), "elder".to_string())],
    }];
    let context = ConstraintContext { map: &m, biome: Biome::Ruins, entities, resources: vec![], objectives: vec![] };
    let def = QuestDef {
        id: "q".to_string(),
        category: "side".to_string(),
        objectives: vec![QuestObjective {
            id: "talk".to_string(),
            objective_type: ObjectiveType::TalkTo { npc_id: "elder".to_string() },
        }],
    };
    let qc = QuestConstraintSystem::generate_quest_constraint(&def);
    let results = QuestConstraintSystem::validate_single_quest(&qc, &context);
    assert_eq!(results.len(), 4);
    assert!(results.iter().all(|r| r.severity == ConstraintSeverity::Critical));
    assert!(results[0].passed);
    assert_eq!(results[0].message, "Quest q accessibility satisfied (score: 0.75)");
    assert!(!results[1].passed);
    assert_eq!(results[1].message, "Quest q spawn requirements failed (coverage: 1.00, density: 0.00)");
    assert!(results[2].passed);
    assert_eq!(results[2].rule_id, "q_talk_spatial");
    assert!(results[3].passed);
    assert_eq!(results[3].rule_id, "q_talk_elder_entity");
}

#[test]
fn maze_tiles_stay_in_bounds() {
    let generator = MazeGenerator::new(MazeParams::default());
    let bounds = Rectangle { x: 10, y: 5, width: 20, height: 14 };
    let mut rng = ChaCha8Rng::seed_from_u64(12345);
    let tiles = generator.generate(bounds, &mut rng);
    assert!(!tiles.is_empty());
    assert!(tiles.iter().all(|&(x, y)| (10..30).contains(&x) && (5..19).contains(&y)));
    let kruskal = MazeGenerator::new(MazeParams { algorithm: MazeAlgorithm::Kruskal, add_loops: false, ..MazeParams::default() });
    let mut rng = ChaCha8Rng::seed_from_u64(1);
    assert!(!kruskal.generate(bounds, &mut rng).is_empty());
}

#[test]
fn maze_block_conversion_exact() {
    let grid = vec![vec![true, false], vec![false, false]];
    let bounds = Rectangle { x: 2, y: 3, width: 5, height: 4 };
    let tiles = MazeGenerator::grid_to_world_coords(&grid, bounds, 2);
    assert_eq!(tiles, vec![(2, 3), (3, 3), (2, 4), (3, 4)]);
    assert_eq!(MazeGenerator::get_unvisited_neighbors(0, 0, &grid, 2, 2), vec![]);
    let grid3 = vec![vec![false; 3]; 3];
    assert_eq!(MazeGenerator::get_unvisited_neighbors(0, 0, &grid3, 3, 3), vec![(2, 0), (0, 2)]);
}

#[test]
fn bsp_rooms_inside_bounds() {
    let algo = BSPAlgorithm::new(BSPParams::default());
    let bounds = Rectangle { x: 0, y: 0, width: 60, height: 40 };
    let mut rng = ChaCha8Rng::seed_from_u64(12345);
    let (rooms, corridors) = algo.generate(bounds, &mut rng);
    assert!(!rooms.is_empty());
    for r in &rooms {
        assert!(r.bounds.x + r.bounds.width <= 60 && r.bounds.y + r.bounds.height <= 40);
        assert_eq!(r.room_type, "chamber");
    }
    assert_eq!(corridors.len(), rooms.len() - 1);
    for c in &corridors {
        assert!(rooms
            .iter()
            .any(|r| c.start == (r.bounds.x + r.bounds.width / 2, r.bounds.y + r.bounds.height / 2)));
    }
}

#[test]
fn distribute_points_keeps_distance() {
    let candidates: Vec<(i32, i32)> = (0..10).flat_map(|x| (0..10).map(move |y| (x, y))).collect();
    let mut rng = ChaCha8Rng::seed_from_u64(12345);
    let picked = distribute_points_grid(&candidates, 5, 4, &mut rng);
    assert!(picked.len() <= 5);
    for (i, a) in picked.iter().enumerate() {
        assert!(candidates.contains(a));
        for b in &picked[..i] {
            assert!((a.0 - b.0).abs() >= 4 || (a.1 - b.1).abs() >= 4);
        }
    }
    let none = distribute_points_grid(&candidates, 0, 4, &mut rng);
    assert!(none.is_empty());
}

#[test]
fn fragment_placement_rules() {
    let rules = PlacementRules {
        biomes: vec!["desert".to_string()],
        min_distance_from_player: 5,
        max_distance_from_player: 20,
        requires_poi: None,
        exclusion_zones: vec![],
    };
    let placed = vec![PlacedFragment { fragment_id: "old".to_string(), x: 3, y: 4, discovered: false, activation_turn: 1 }];
    let prereqs = vec!["intro".to_string()];
    let found = vec!["intro".to_string()];
    assert!(can_place_fragment(&"new".to_string(), &rules, &prereqs, &"desert".to_string(), &found, &placed));
    assert!(!can_place_fragment(&"new".to_string(), &rules, &prereqs, &"oasis".to_string(), &found, &placed));
    assert!(!can_place_fragment(&"new".to_string(), &rules, &prereqs, &"desert".to_string(), &vec![], &placed));
    assert!(!can_place_fragment(&"old".to_string(), &rules, &prereqs, &"desert".to_string(), &found, &placed));
    assert_eq!(get_fragments_near(&placed, 0, 0, 5), vec![0]);
    assert!(get_fragments_near(&placed, 0, 0, 4).is_empty());
    let mut placed2 = placed.clone();
    assert_eq!(discover_fragment(&mut placed2, &"old".to_string()), Some(0));
    assert!(placed2[0].discovered);
    assert_eq!(discover_fragment(&mut placed2, &"missing".to_string()), None);
}

use saltglass_gen::lighting::{compute_lighting, get_light_level, has_glare, is_lit, LightSource};

fn falloff_table(src: &LightSource) -> Vec<u8> {
    let r = src.radius;
    let mut table = Vec::new();
    for dy in -r..=r {
        for dx in -r..=r {
            let dist_sq = dx * dx + dy * dy;
            let radius_sq = r * r;
            let falloff = 1.0 - (dist_sq as f32 / radius_sq as f32).sqrt();
            table.push((src.intensity as f32 * falloff) as u8);
        }
    }
    table
}

fn lighting(sources: &[LightSource], ambient: u8) -> Vec<u8> {
    let tables: Vec<Vec<u8>> = sources.iter().map(falloff_table).collect();
    compute_lighting(sources, &tables, ambient)
}

#[test]
fn light_source_illuminates_area() {
    let sources = vec![LightSource { x: 10, y: 10, radius: 5, intensity: 200 }];
    let light = lighting(&sources, 0);
    assert!(light[10 * MAP_WIDTH + 10] >= 200);
    assert!(light[10 * MAP_WIDTH + 14] > 0);
    assert!(light[10 * MAP_WIDTH + 14] < 200);
    assert_eq!(light[10 * MAP_WIDTH + 20], 0);
}

#[test]
fn ambient_light_baseline() {
    let sources = vec![];
    let light = lighting(&sources, 50);
    assert!(light.iter().all(|&l| l == 50));
}

#[test]
fn overlapping_lights_saturate_and_queries_read_the_map() {
    let sources = vec![
        LightSource { x: 0, y: 0, radius: 2, intensity: 200 },
        LightSource { x: 1, y: 0, radius: 2, intensity: 200 },
    ];
    let light = lighting(&sources, 10);
    assert_eq!(light[0], 255);
    assert_eq!(get_light_level(&light, 0, 0), 255);
    assert_eq!(get_light_level(&light, -1, 0), 0);
    assert_eq!(get_light_level(&light, 0, 5), 10);
    assert!(is_lit(&light, 0, 0, 200));
    assert!(!is_lit(&light, 0, 5, 11));
    assert!(!is_lit(&light, 0, 5, 10));
    assert!(is_lit(&light, 0, 5, 9));
    assert!(has_glare(&light, 1, 0, 250));
    assert!(!has_glare(&light, 300, 0, 1));
}

fn tunnel(a: usize, b: usize, cost: usize) -> TunnelEdge {
    TunnelEdge { region_a: a, region_b: b, exit_a: (0, 0), exit_b: (1, 1), cost }
}

fn ends(sel: &[TunnelEdge]) -> Vec<(usize, usize, usize)> {
    sel.iter().map(|e| (e.region_a, e.region_b, e.cost)).collect()
}

#[test]
fn required_regions_joined_by_cheapest_tunnels() {
    let edges = vec![tunnel(0, 1, 5), tunnel(1, 2, 3), tunnel(0, 2, 10)];
    let sel = connect_required_regions(3, &edges, &vec![0, 2]);
    assert_eq!(ends(&sel), vec![(1, 2, 3), (0, 1, 5)]);
}

#[test]
fn single_required_region_keeps_nothing() {
    let edges = vec![tunnel(0, 1, 5), tunnel(1, 2, 3)];
    assert!(connect_required_regions(3, &edges, &vec![1]).is_empty());
    assert!(connect_required_regions(3, &edges, &vec![]).is_empty());
}

#[test]
fn tunnels_away_from_required_regions_are_passed_over() {
    let edges = vec![tunnel(1, 2, 1), tunnel(0, 1, 2), tunnel(2, 3, 2), tunnel(0, 1, 4)];
    let sel = connect_required_regions(4, &edges, &vec![0, 3]);
    assert_eq!(ends(&sel), vec![(0, 1, 2), (2, 3, 2)]);
}

#[test]
fn tunnel_closing_a_loop_is_not_kept() {
    let edges = vec![tunnel(0, 1, 1), tunnel(1, 0, 2), tunnel(2, 3, 3), tunnel(1, 2, 4)];
    let sel = connect_required_regions(4, &edges, &vec![0, 1, 2]);
    assert_eq!(ends(&sel), vec![(0, 1, 1), (2, 3, 3), (1, 2, 4)]);
}

#[test]
fn attempts_retry_until_the_last_one_is_repaired() {
    assert_eq!(attempt_action(0, true), AttemptAction::Finish);
    assert_eq!(attempt_action(0, false), AttemptAction::Retry);
    assert_eq!(attempt_action(MAX_ATTEMPTS - 2, false), AttemptAction::Retry);
    assert_eq!(attempt_action(MAX_ATTEMPTS - 1, false), AttemptAction::RepairThenFinish);
    assert_eq!(attempt_action(MAX_ATTEMPTS - 1, true), AttemptAction::Finish);
}

#[test]
fn cheaper_of_two_parallel_tunnels_is_kept() {
    let edges = vec![tunnel(0, 1, 5), tunnel(0, 1, 1)];
    let sel = connect_required_regions(2, &edges, &vec![0, 1]);
    assert_eq!(ends(&sel), vec![(0, 1, 1)]);
}
