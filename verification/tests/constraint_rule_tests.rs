use rand::SeedableRng;
use rand_chacha::ChaCha8Rng;
use saltglass_gen::constraint_rules::{path_queries, ConstraintRule, ParamItem, ParamValue};
use saltglass_gen::constraints::{
    ConstraintContext, ConstraintSeverity, ConstraintSystem, ConstraintType, EntityPlacement, ObjectivePlacement,
    ResourcePlacement,
};
use saltglass_gen::map::{Biome, Tile, TileMap};

/// A 20 x 20 map: stone walls around an open 18 x 18 floor.
fn test_map() -> TileMap {
    let mut m = TileMap::new(20, 20);
    for y in 1..19 {
        for x in 1..19 {
            m.set_tile(x, y, Tile::Floor { id: "stone".to_string() });
        }
    }
    m
}

fn enemy(x: i32, y: i32) -> EntityPlacement {
    EntityPlacement { entity_type: "enemy".to_string(), x, y, properties: vec![] }
}

fn create_test_context(map: &TileMap) -> ConstraintContext<'_> {
    ConstraintContext {
        map,
        biome: Biome::Desert,
        entities: vec![enemy(5, 5), enemy(15, 15)],
        resources: vec![ResourcePlacement { resource_type: "glass".to_string(), x: 10, y: 10, amount: 50 }],
        objectives: vec![ObjectivePlacement { objective_type: "exit".to_string(), x: 18, y: 18, required: true }],
    }
}

fn rule(id: &str, kind: ConstraintType, parameters: Vec<(String, ParamValue)>, severity: ConstraintSeverity) -> ConstraintRule {
    ConstraintRule { id: id.to_string(), name: id.to_string(), constraint_type: kind, parameters, severity, enabled: true }
}

fn all_kinds() -> Vec<ConstraintRule> {
    let mut rules = vec![
        rule("connectivity", ConstraintType::Connectivity, vec![], ConstraintSeverity::Critical),
        rule("distance", ConstraintType::Distance, vec![], ConstraintSeverity::Warning),
        rule("accessibility", ConstraintType::Accessibility, vec![], ConstraintSeverity::Critical),
        rule("balance", ConstraintType::Balance, vec![], ConstraintSeverity::Warning),
        rule("placement", ConstraintType::Placement, vec![], ConstraintSeverity::Suggestion),
        rule("resource", ConstraintType::Resource, vec![], ConstraintSeverity::Warning),
        rule("tactical", ConstraintType::Tactical, vec![], ConstraintSeverity::Warning),
        rule("safe_zone", ConstraintType::SafeZone, vec![], ConstraintSeverity::Warning),
        rule("escape", ConstraintType::EscapeRoute, vec![], ConstraintSeverity::Warning),
        rule("objectives", ConstraintType::ObjectiveAccessibility, vec![], ConstraintSeverity::Critical),
    ];
    rules.push(ConstraintRule { enabled: false, ..rule("off", ConstraintType::Balance, vec![], ConstraintSeverity::Critical) });
    rules
}

#[test]
fn constraints_test_constraint_system_deterministic() {
    let mut rng1 = ChaCha8Rng::seed_from_u64(12345);
    let mut rng2 = ChaCha8Rng::seed_from_u64(12345);

    let map = test_map();
    let context = create_test_context(&map);
    let rules = all_kinds();

    let results1 = ConstraintSystem::validate_constraints(&rules, &context, &vec![], &mut rng1);
    let results2 = ConstraintSystem::validate_constraints(&rules, &context, &vec![], &mut rng2);

    assert_eq!(results1.len(), results2.len());
    for (r1, r2) in results1.iter().zip(results2.iter()) {
        assert_eq!(r1.rule_id, r2.rule_id);
        assert_eq!(r1.passed, r2.passed);
        assert_eq!(r1.message, r2.message);
    }
}

#[test]
fn test_connectivity_validation() {
    let map = test_map();
    let context = ConstraintContext { map: &map, biome: Biome::Desert, entities: vec![], resources: vec![], objectives: vec![] };

    let rule = rule("test_connectivity", ConstraintType::Connectivity, vec![], ConstraintSeverity::Critical);

    let result = ConstraintSystem::validate_connectivity(&rule, &context, &vec![]);
    assert_eq!(result.rule_id, "test_connectivity");
    assert!(result.passed); // Empty points should pass
}

#[test]
fn test_distance_validation() {
    let map = test_map();
    let context = create_test_context(&map);

    let params = vec![
        ("min_distance".to_string(), ParamValue::Fraction(5_000_000)),
        ("max_distance".to_string(), ParamValue::Fraction(20_000_000)),
    ];
    let rule = rule("test_distance", ConstraintType::Distance, params, ConstraintSeverity::Warning);

    let result = ConstraintSystem::validate_distance(&rule, &context);
    assert_eq!(result.rule_id, "test_distance");
    // The two enemies lie about 14.1 cells apart.
    assert!(result.passed);
    assert_eq!(result.message, "Distance: 1/1 pairs within range");
}

#[test]
fn test_accessibility_validation() {
    let map = test_map();
    let context = create_test_context(&map);

    let rule = rule("test_accessibility", ConstraintType::Accessibility, vec![], ConstraintSeverity::Critical);

    let result = ConstraintSystem::validate_accessibility(&rule, &context, &vec![((10, 10), (18, 18))]);
    assert_eq!(result.rule_id, "test_accessibility");
    assert!(result.passed);
    assert_eq!(result.message, "Accessibility: 1/1 objectives reachable");
    let unreached = ConstraintSystem::validate_accessibility(&rule, &context, &vec![]);
    assert!(!unreached.passed);
    assert_eq!(unreached.message, "Accessibility: 0/1 objectives reachable");
}

#[test]
fn connectivity_counts_connected_pairs() {
    let map = test_map();
    let context = create_test_context(&map);
    let points = |ps: &[(i32, i32)]| ParamValue::List(ps.iter().map(|&(x, y)| ParamItem::Point(x, y)).collect());
    let params = vec![
        ("start_points".to_string(), points(&[(1, 1), (2, 2)])),
        ("end_points".to_string(), ParamValue::List(vec![ParamItem::Point(5, 5), ParamItem::Text("x".to_string()), ParamItem::Point(2, 2)])),
    ];
    let rule = rule("c", ConstraintType::Connectivity, params, ConstraintSeverity::Critical);
    // (2, 2) to itself always connects; one more known pair makes 2 of 4.
    let r = ConstraintSystem::validate_connectivity(&rule, &context, &vec![((1, 1), (5, 5))]);
    assert_eq!(r.message, "Connectivity: 2/4 paths connected");
    assert!(!r.passed);
    let r = ConstraintSystem::validate_connectivity(&rule, &context, &vec![((1, 1), (5, 5)), ((1, 1), (2, 2)), ((2, 2), (5, 5))]);
    assert_eq!(r.message, "Connectivity: 4/4 paths connected");
    assert!(r.passed);
}

#[test]
fn balance_counts_resources_or_open_space() {
    let map = test_map();
    let context = create_test_context(&map);
    let r = ConstraintSystem::validate_balance(
        &rule("b", ConstraintType::Balance, vec![("resource_type".to_string(), ParamValue::Text("glass".to_string()))], ConstraintSeverity::Warning),
        &context,
    );
    assert!(r.passed);
    assert_eq!(r.message, "Balance: 50 resources (range: 1-100)");
    let params = vec![
        ("resource_type".to_string(), ParamValue::Text("open_space".to_string())),
        ("max_amount".to_string(), ParamValue::Whole(300)),
        // A fraction is no whole number: the default minimum stays.
        ("min_amount".to_string(), ParamValue::Fraction(5_000_000)),
    ];
    let r = ConstraintSystem::validate_balance(&rule("b", ConstraintType::Balance, params, ConstraintSeverity::Warning), &context);
    assert!(!r.passed);
    assert_eq!(r.message, "Balance: 324 resources (range: 1-300)");
}

#[test]
fn placement_in_a_forbidden_biome() {
    let map = test_map();
    let context = create_test_context(&map);
    let params = vec![
        ("entity_type".to_string(), ParamValue::Text("enemy".to_string())),
        ("forbidden_biomes".to_string(), ParamValue::List(vec![ParamItem::Text("desert".to_string())])),
    ];
    let r = ConstraintSystem::validate_placement(&rule("p", ConstraintType::Placement, params, ConstraintSeverity::Critical), &context);
    assert!(!r.passed);
    assert_eq!(r.message, "Placement: 2 entities in desert biome");
    assert_eq!(r.severity, ConstraintSeverity::Critical);
}

#[test]
fn resource_density_cap() {
    let map = test_map();
    let context = create_test_context(&map);
    let r = ConstraintSystem::validate_resource(&rule("r", ConstraintType::Resource, vec![], ConstraintSeverity::Warning), &context);
    assert!(r.passed);
    assert_eq!(r.message, "Resource density: 1/40 resources");
    let none = vec![("max_density".to_string(), ParamValue::Whole(0))];
    let r = ConstraintSystem::validate_resource(&rule("r", ConstraintType::Resource, none, ConstraintSeverity::Warning), &context);
    assert!(!r.passed);
    assert_eq!(r.message, "Resource density: 1/0 resources");
}

#[test]
fn tactical_on_an_open_room() {
    let map = test_map();
    let context = create_test_context(&map);
    let r = ConstraintSystem::validate_tactical(&rule("t", ConstraintType::Tactical, vec![], ConstraintSeverity::Warning), &context);
    // No chokepoints; 256 of 324 floors are open.
    assert!(!r.passed);
    assert_eq!(r.message, "Tactical: 0 chokepoints, 79.0% open areas");
}

#[test]
fn safe_zone_coverage() {
    let map = test_map();
    let context = create_test_context(&map);
    let r = ConstraintSystem::validate_safe_zone(&rule("s", ConstraintType::SafeZone, vec![], ConstraintSeverity::Warning), &context);
    let mut safe = 0;
    for y in 1..19i32 {
        for x in 1..19i32 {
            let far = |ex: i32, ey: i32| (x - ex) * (x - ex) + (y - ey) * (y - ey) >= 25;
            if far(5, 5) && far(15, 15) {
                safe += 1;
            }
        }
    }
    let pct = format!("{:.1}", safe as f64 / 324.0 * 100.0);
    assert_eq!(r.message, format!("Safe zones: {}% coverage ({} safe tiles)", pct, safe));
    assert_eq!(r.passed, safe * 10 >= 324 * 3);
}

#[test]
fn escape_routes_in_a_closed_room() {
    let map = test_map();
    let context = create_test_context(&map);
    let r = ConstraintSystem::validate_escape_route(&rule("e", ConstraintType::EscapeRoute, vec![], ConstraintSeverity::Warning), &context);
    assert!(!r.passed);
    assert_eq!(r.message, "Escape routes: 0/4 areas valid, 0 deep dead ends");
    let empty = TileMap::new(3, 3);
    let context = ConstraintContext { map: &empty, biome: Biome::Oasis, entities: vec![], resources: vec![], objectives: vec![] };
    let r = ConstraintSystem::validate_escape_route(&rule("e", ConstraintType::EscapeRoute, vec![], ConstraintSeverity::Warning), &context);
    assert!(r.passed);
    assert_eq!(r.message, "Escape routes: 0/0 areas valid, 0 deep dead ends");
}

#[test]
fn objective_paths_within_complexity() {
    let map = test_map();
    let context = create_test_context(&map);
    let r = ConstraintSystem::validate_objective_accessibility(
        &rule("o", ConstraintType::ObjectiveAccessibility, vec![], ConstraintSeverity::Critical),
        &context,
    );
    assert!(r.passed);
    assert_eq!(r.message, "Objectives: 1/1 accessible, 1/1 valid complexity");
    let params = vec![("max_path_complexity".to_string(), ParamValue::Whole(10))];
    let r = ConstraintSystem::validate_objective_accessibility(&rule("o", ConstraintType::ObjectiveAccessibility, params, ConstraintSeverity::Critical), &context);
    assert!(!r.passed);
    assert_eq!(r.message, "Objectives: 1/1 accessible, 0/1 valid complexity");
}

#[test]
fn dead_end_depth_of_a_corridor() {
    let mut m = TileMap::new(12, 5);
    for x in 1..11 {
        m.set_tile(x, 2, Tile::Floor { id: "stone".to_string() });
    }
    // Every corridor cell has at most two walkable neighbours: the search
    // runs out of cells and reports ten.
    assert_eq!(ConstraintSystem::calculate_dead_end_depth(&m, 1, 2), 10);
    let open = test_map();
    assert_eq!(ConstraintSystem::calculate_dead_end_depth(&open, 5, 5), 0);
}

#[test]
fn path_queries_pair_starts_with_ends_and_spawn_with_objectives() {
    let map = test_map();
    let mut context = create_test_context(&map);
    context.objectives.push(ObjectivePlacement { objective_type: "chest".to_string(), x: 3, y: 4, required: false });
    context.objectives.push(ObjectivePlacement { objective_type: "door".to_string(), x: 7, y: 8, required: true });
    let points = |ps: &[(i32, i32)]| ParamValue::List(ps.iter().map(|&(x, y)| ParamItem::Point(x, y)).collect());
    let connect = rule(
        "connect",
        ConstraintType::Connectivity,
        vec![
            ("start_points".to_string(), points(&[(1, 1), (2, 2)])),
            ("end_points".to_string(), points(&[(9, 9)])),
        ],
        ConstraintSeverity::Critical,
    );
    let reach = rule("reach", ConstraintType::Accessibility, vec![], ConstraintSeverity::Critical);
    let mut off = reach.clone();
    off.enabled = false;
    let other = rule("balance", ConstraintType::Balance, vec![], ConstraintSeverity::Warning);
    let q = path_queries(&vec![connect, other, off, reach], &context);
    assert_eq!(q, vec![((1, 1), (9, 9)), ((2, 2), (9, 9)), ((10, 10), (18, 18)), ((10, 10), (7, 8))]);
}
