use rand::SeedableRng;
use rand_chacha::ChaCha8Rng;
use saltglass_gen::algorithms::cellular::{CellularAutomataAlgorithm, CellularAutomataParams};
use saltglass_gen::algorithms::drunkard::{DrunkardWalkAlgorithm, DrunkardWalkParams};
use saltglass_gen::algorithms::percolation::PercolationAlgorithm;
use saltglass_gen::dungeon_generator::{DungeonGenerator, DungeonGeneratorParams};
use saltglass_gen::environmental_props::{place_environmental_props, PropDef};
use saltglass_gen::map::{Tile, TileMap, MAP_HEIGHT, MAP_WIDTH};
use saltglass_gen::structures::{POIType, Rectangle, StructureParams, StructureType};

fn at(m: &TileMap, x: usize, y: usize) -> &Tile {
    &m.tiles[y * m.width + x]
}

fn is_floor(t: &Tile) -> bool {
    matches!(t, Tile::Floor { .. })
}

#[test]
fn test_simple_dungeon_generation() {
    let mut rng = ChaCha8Rng::seed_from_u64(12345);
    let generator = DungeonGenerator::with_default();

    let map = generator.generate_simple(&mut rng);

    assert_eq!(map.width, 80);
    assert_eq!(map.height, 40);

    let mut floor_count = 0;
    let mut wall_count = 0;
    for tile in &map.tiles {
        match tile {
            Tile::Floor { .. } => floor_count += 1,
            Tile::Wall { .. } => wall_count += 1,
            _ => {}
        }
    }

    assert!(floor_count > 0, "Should have floors");
    assert!(wall_count > 0, "Should have walls");
    assert!(floor_count < map.tiles.len(), "Should not be all floors");
}

#[test]
fn test_deterministic_generation() {
    let params = DungeonGeneratorParams::default();
    let generator = DungeonGenerator::new(params);

    let mut rng1 = ChaCha8Rng::seed_from_u64(42);
    let mut rng2 = ChaCha8Rng::seed_from_u64(42);

    let map1 = generator.generate_simple(&mut rng1);
    let map2 = generator.generate_simple(&mut rng2);

    assert_eq!(map1.tiles.len(), map2.tiles.len());
    for (i, (tile1, tile2)) in map1.tiles.iter().zip(map2.tiles.iter()).enumerate() {
        assert_eq!(
            std::mem::discriminant(tile1),
            std::mem::discriminant(tile2),
            "Tiles should match at index {}",
            i
        );
    }
}

#[test]
fn dungeon_rooms_and_corridors_are_exact() {
    let mut rng = ChaCha8Rng::seed_from_u64(1);
    let map = DungeonGenerator::with_default().generate_simple(&mut rng);
    // 8 rooms across, 5 down: 40 rooms of 48 cells, 35 eastward and 32
    // southward corridors of 2 cells each.
    let floors = map.tiles.iter().filter(|t| is_floor(t)).count();
    assert_eq!(floors, 40 * 48 + 35 * 2 + 32 * 2);
    assert!(is_floor(at(&map, 1, 1)));
    assert!(is_floor(at(&map, 8, 6)));
    assert!(!is_floor(at(&map, 9, 1)));
    assert!(is_floor(at(&map, 9, 4)));
    assert!(is_floor(at(&map, 10, 4)));
    assert!(is_floor(at(&map, 5, 7)));
    assert!(is_floor(at(&map, 5, 8)));
    assert!(!is_floor(at(&map, 0, 0)));
    // The last room of a row has no eastward corridor.
    assert!(!is_floor(at(&map, 79, 4)));
    assert!(matches!(at(&map, 0, 0), Tile::Wall { id, hp } if id == "stone" && *hp == 100));
}

#[test]
fn dungeon_smaller_than_a_room_still_gets_one_clipped_room() {
    let mut rng = ChaCha8Rng::seed_from_u64(1);
    let g = DungeonGenerator::new(DungeonGeneratorParams { width: 5, height: 4, organic_blend_factor: 0 });
    let map = g.generate_simple(&mut rng);
    // One room at (1, 1) clipped to the 5 x 4 area: columns 1..5, rows 1..4.
    assert_eq!(map.tiles.iter().filter(|t| is_floor(t)).count(), 4 * 3);
}

#[test]
fn dungeon_structure_lists_every_cell() {
    let mut rng = ChaCha8Rng::seed_from_u64(3);
    let g = DungeonGenerator::new(DungeonGeneratorParams { width: 12, height: 9, organic_blend_factor: 0 });
    let params = StructureParams::new(StructureType::Dungeon, (12, 9));
    let s = g.generate(&params, &mut rng).unwrap();
    assert_eq!(s.features.len(), 12 * 9);
    assert_eq!(s.features[13].position, (1, 1));
    assert_eq!(s.features[13].feature_type, "floor");
    assert_eq!(s.features[0].feature_type, "wall");
    assert_eq!(s.rooms.len(), 1);
    assert_eq!(s.rooms[0].room_type, "dungeon_chamber");
    assert_eq!(g.get_supported_poi_types(), vec![POIType::Dungeon]);
}

#[test]
fn test_cellular_automata_generation() {
    let params = CellularAutomataParams::default();
    let algorithm = CellularAutomataAlgorithm::new(params);
    let mut rng = ChaCha8Rng::seed_from_u64(12345);

    let bounds = Rectangle::new(0, 0, 20, 15);
    let walls = algorithm.generate(bounds, &mut rng);

    assert!(!walls.is_empty());

    let bounds_check = Rectangle::new(0, 0, 20, 15);
    for (x, y) in &walls {
        assert!(*x >= bounds_check.x as i32);
        assert!(*x < (bounds_check.x + bounds_check.width) as i32);
        assert!(*y >= bounds_check.y as i32);
        assert!(*y < (bounds_check.y + bounds_check.height) as i32);
    }

    let mut rng2 = ChaCha8Rng::seed_from_u64(12345);
    let bounds2 = Rectangle::new(0, 0, 20, 15);
    let walls2 = algorithm.generate(bounds2, &mut rng2);
    assert_eq!(walls, walls2);
}

#[test]
fn test_neighbor_counting() {
    let params = CellularAutomataParams::default();
    let algorithm = CellularAutomataAlgorithm::new(params);

    let grid = vec![
        vec![true, false, true],
        vec![false, true, false],
        vec![true, false, true],
    ];

    let count = algorithm.count_neighbors(&grid, 1, 1);
    assert_eq!(count, 4);

    // Corner cell should have 1 neighbor + 2 out-of-bounds = 3
    let count = algorithm.count_neighbors(&grid, 0, 0);
    assert_eq!(count, 3);
}

#[test]
fn test_von_neumann_neighborhood() {
    let mut params = CellularAutomataParams::default();
    params.use_moore_neighborhood = false;
    let algorithm = CellularAutomataAlgorithm::new(params);

    let grid = vec![
        vec![true, false, true],
        vec![false, true, false],
        vec![true, false, true],
    ];

    let count = algorithm.count_neighbors(&grid, 1, 1);
    assert_eq!(count, 0);
}

#[test]
fn automaton_generation_step_is_exact() {
    let algorithm = CellularAutomataAlgorithm::new(CellularAutomataParams::default());
    let grid = vec![
        vec![true, false, true],
        vec![false, true, false],
        vec![true, false, true],
    ];
    // Corners count three (one living diagonal, two walls beyond the edge)
    // and die; edge cells count four and are not born; the centre counts its
    // four living diagonals and survives.
    let next = algorithm.iterate_generation(&grid);
    assert_eq!(next, vec![vec![false, false, false], vec![false, true, false], vec![false, false, false]]);
}

#[test]
fn automaton_with_no_walls_and_no_rounds_is_empty() {
    let mut params = CellularAutomataParams::default();
    params.initial_wall_probability = 0;
    params.iterations = 0;
    let mut rng = ChaCha8Rng::seed_from_u64(9);
    let walls = CellularAutomataAlgorithm::new(params).generate(Rectangle::new(3, 4, 10, 10), &mut rng);
    assert!(walls.is_empty());
    params.initial_wall_probability = 1_000_000;
    let walls = CellularAutomataAlgorithm::new(params).generate(Rectangle::new(3, 4, 2, 2), &mut rng);
    assert_eq!(walls, vec![(3, 4), (4, 4), (3, 5), (4, 5)]);
}

#[test]
fn drunkard_walk_stays_off_the_edges() {
    let algorithm = DrunkardWalkAlgorithm::new(DrunkardWalkParams::default());
    let mut rng = ChaCha8Rng::seed_from_u64(7);
    let bounds = Rectangle::new(5, 6, 30, 20);
    let carved = algorithm.generate(bounds, &mut rng);
    assert!(!carved.is_empty());
    for (x, y) in &carved {
        assert!(*x >= 6 && *x <= 33);
        assert!(*y >= 7 && *y <= 24);
    }
}

#[test]
fn drunkard_walk_with_radius_stays_inside() {
    let mut params = DrunkardWalkParams::default();
    params.carve_radius = 2;
    let algorithm = DrunkardWalkAlgorithm::new(params);
    let mut rng = ChaCha8Rng::seed_from_u64(8);
    let bounds = Rectangle::new(0, 0, 12, 10);
    let carved = algorithm.generate(bounds, &mut rng);
    assert!(!carved.is_empty());
    for (x, y) in &carved {
        assert!(*x < 12 && *y < 10);
    }
}

#[test]
fn drunkard_walk_without_walkers_carves_nothing() {
    let mut params = DrunkardWalkParams::default();
    params.num_walkers = 0;
    let mut rng = ChaCha8Rng::seed_from_u64(8);
    let carved = DrunkardWalkAlgorithm::new(params).generate(Rectangle::new(0, 0, 1, 1), &mut rng);
    assert!(carved.is_empty());
}

#[test]
fn percolation_walls_the_edge() {
    let mut rng = ChaCha8Rng::seed_from_u64(11);
    let map = PercolationAlgorithm::new().generate(&mut rng);
    assert_eq!(map.width, MAP_WIDTH);
    assert_eq!(map.height, MAP_HEIGHT);
    for x in 0..MAP_WIDTH {
        assert!(!is_floor(at(&map, x, 0)));
        assert!(!is_floor(at(&map, x, MAP_HEIGHT - 1)));
    }
    for y in 0..MAP_HEIGHT {
        assert!(!is_floor(at(&map, 0, y)));
        assert!(!is_floor(at(&map, MAP_WIDTH - 1, y)));
    }
}

#[test]
fn percolation_extremes() {
    let mut rng = ChaCha8Rng::seed_from_u64(11);
    let closed = PercolationAlgorithm::with_params(0, 3, 4).generate(&mut rng);
    assert!(closed.tiles.iter().all(|t| !is_floor(t)));
    // All floors: every cell off the edge has eight floor neighbours and
    // stays open; only the edge is walled at the end.
    let open = PercolationAlgorithm::with_params(1_000_000, 2, 4).generate(&mut rng);
    let floors = open.tiles.iter().filter(|t| is_floor(t)).count();
    assert_eq!(floors, (MAP_WIDTH - 2) * (MAP_HEIGHT - 2));
}

fn sand_map() -> TileMap {
    let mut m = TileMap::new(20, 20);
    for y in 0..20 {
        for x in 0..20 {
            m.set_tile(x, y, Tile::Floor { id: "sand".to_string() });
        }
    }
    m.set_tile(15, 15, Tile::Wall { id: "stone".to_string(), hp: 100 });
    m
}

#[test]
fn props_only_dress_their_floors() {
    let props = vec![PropDef {
        id: "salt_crust".to_string(),
        biomes: Some(vec!["saltflat".to_string()]),
        place_on: vec!["sand".to_string()],
        density: 1_000_000,
        cluster_chance: 0,
        cluster_size: (1, 2),
    }];
    let mut rng = ChaCha8Rng::seed_from_u64(5);
    let mut m = sand_map();
    place_environmental_props(&mut m, &props, "saltflat", (2, 2), &mut rng);
    // Every sand floor outside the spawn square became salt crust.
    assert!(matches!(at(&m, 10, 10), Tile::Floor { id } if id == "salt_crust"));
    assert!(matches!(at(&m, 2, 2), Tile::Floor { id } if id == "sand"));
    assert!(matches!(at(&m, 6, 6), Tile::Floor { id } if id == "sand"));
    assert!(matches!(at(&m, 7, 2), Tile::Floor { id } if id == "salt_crust"));
    assert!(matches!(at(&m, 15, 15), Tile::Wall { .. }));

    let mut other = sand_map();
    place_environmental_props(&mut other, &props, "desert", (2, 2), &mut rng);
    assert!(other.tiles.iter().all(|t| !matches!(t, Tile::Floor { id } if id == "salt_crust")));
}

use saltglass_gen::algorithms::wfc::{EntropyHeuristic, WaveFunctionCollapseGenerator, WaveFunctionCollapseParams};

fn tile_count(groups: &[(String, Vec<(u32, u32)>)]) -> usize {
    groups.iter().map(|g| g.1.len()).sum()
}

#[test]
fn wave_function_collapse_fills_every_block() {
    let params = WaveFunctionCollapseParams::default();
    assert_eq!(params.entropy_heuristic, EntropyHeuristic::MinimumEntropy);
    let generator = WaveFunctionCollapseGenerator::new(params);
    let mut rng = ChaCha8Rng::seed_from_u64(21);
    let groups = generator.generate(Rectangle::new(2, 3, 9, 10), &mut rng);
    // 3 x 3 blocks of 3 x 3 tiles; the tenth row holds no whole block.
    assert_eq!(tile_count(&groups), 81);
    for (t, ps) in &groups {
        assert!(t == "floor" || t == "wall" || t == "door");
        for &(x, y) in ps {
            assert!((2..11).contains(&x) && (3..12).contains(&y));
        }
    }
    let mut types: Vec<&String> = groups.iter().map(|g| &g.0).collect();
    types.dedup();
    assert_eq!(types.len(), groups.len());
}

#[test]
fn wave_function_collapse_stops_after_its_steps() {
    let mut params = WaveFunctionCollapseParams::default();
    params.max_iterations = 2;
    let generator = WaveFunctionCollapseGenerator::new(params);
    let mut rng = ChaCha8Rng::seed_from_u64(5);
    let groups = generator.generate(Rectangle::new(0, 0, 9, 9), &mut rng);
    // The first two blocks of the top row collapse.
    assert_eq!(tile_count(&groups), 18);
    for (_, ps) in &groups {
        for &(x, y) in ps {
            assert!(x < 6 && y < 3);
        }
    }
}

#[test]
fn wave_function_collapse_without_patterns_lays_nothing() {
    let mut params = WaveFunctionCollapseParams::default();
    params.pattern_weights = vec![];
    let generator = WaveFunctionCollapseGenerator::new(params);
    let mut rng = ChaCha8Rng::seed_from_u64(5);
    assert!(generator.generate(Rectangle::new(0, 0, 9, 9), &mut rng).is_empty());
}

#[test]
fn wave_function_collapse_single_type_is_one_group() {
    let mut params = WaveFunctionCollapseParams::default();
    params.pattern_weights = vec![("glass".to_string(), 5)];
    params.tile_size = 2;
    let generator = WaveFunctionCollapseGenerator::new(params);
    let mut rng = ChaCha8Rng::seed_from_u64(5);
    let groups = generator.generate(Rectangle::new(0, 0, 4, 2), &mut rng);
    assert_eq!(groups, vec![("glass".to_string(), vec![(0, 0), (1, 0), (0, 1), (1, 1), (2, 0), (3, 0), (2, 1), (3, 1)])]);
}
