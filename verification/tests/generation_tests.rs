use saltglass_gen::biomes::BiomeGenerationContext;
use saltglass_gen::constraints::{ConstraintResult, ConstraintSeverity, ConstraintSystem};
use saltglass_gen::map::Biome;
use saltglass_gen::settlement::layout::{calculate_population, SettlementTier};
use saltglass_gen::settlement::prefab::{LegendEntry as PrefabLegendEntry, Prefab, PrefabData, PrefabMetadata};
use saltglass_gen::structure_library::{
    parse_inline_pattern, LegendEntry, Structure, StructureData, StructureMetadata, StructureUsage,
};

#[test]
fn biomes_test_biome_context_creation() {
    let context = BiomeGenerationContext {
        biome: Biome::Oasis,
        storm_intensity: 1,
        time_of_day: "dawn".to_string(),
        weather_conditions: "misty".to_string(),
        player_adaptations: vec!["prismhide".to_string()],
    };

    assert_eq!(context.biome, Biome::Oasis);
    assert_eq!(context.storm_intensity, 1);
    assert!(context.player_adaptations.contains(&"prismhide".to_string()));
}

#[test]
fn tests_test_biome_context_creation() {
    let context = BiomeGenerationContext {
        biome: Biome::Oasis,
        storm_intensity: 1,
        time_of_day: "dawn".to_string(),
        weather_conditions: "misty".to_string(),
        player_adaptations: vec!["prismhide".to_string()],
    };

    assert_eq!(context.biome, Biome::Oasis);
    assert_eq!(context.storm_intensity, 1);
    assert_eq!(context.time_of_day, "dawn");
    assert!(context.player_adaptations.contains(&"prismhide".to_string()));
}

#[test]
fn test_parse_inline_pattern() {
    let lines = vec!["###".to_string(), "#.#".to_string(), "###".to_string()];
    let pattern = parse_inline_pattern(lines).unwrap();
    assert_eq!(pattern.len(), 3);
    assert_eq!(pattern[0], vec!['#', '#', '#']);
    assert_eq!(pattern[1], vec!['#', '.', '#']);
    assert_eq!(pattern[2], vec!['#', '#', '#']);
}

#[test]
fn test_parse_inline_pattern_empty() {
    let lines = vec![];
    let result = parse_inline_pattern(lines);
    assert!(result.is_err());
}

fn wall(id: &str) -> LegendEntry {
    LegendEntry::Wall { id: id.to_string() }
}

#[test]
fn test_structure_validation_rectangular() {
    let data = StructureData {
        id: "test".to_string(),
        usage: StructureUsage::Standalone,
        pattern_file: None,
        pattern: Some(vec!["###".to_string(), "##".to_string()]),
        legend: vec![('#', wall("stone"))],
        metadata: StructureMetadata::default(),
    };

    let result = Structure::from_data(data, None);
    assert!(result.is_ok());
    let s = result.unwrap();
    assert_eq!(s.width, 3);
    assert_eq!(s.pattern[1][2], ' ');
}

#[test]
fn test_structure_validation_legend() {
    let data = StructureData {
        id: "test".to_string(),
        usage: StructureUsage::Standalone,
        pattern_file: None,
        pattern: Some(vec!["###".to_string(), "#.#".to_string(), "###".to_string()]),
        legend: vec![('#', wall("stone"))],
        metadata: StructureMetadata::default(),
    };

    let result = Structure::from_data(data, None);
    assert!(result.is_err());
    assert!(result.unwrap_err().contains("not in legend"));
}

#[test]
fn test_structure_valid() {
    let data = StructureData {
        id: "test".to_string(),
        usage: StructureUsage::Standalone,
        pattern_file: None,
        pattern: Some(vec!["###".to_string(), "#.#".to_string(), "###".to_string()]),
        legend: vec![
            ('#', wall("stone")),
            ('.', LegendEntry::Floor { id: "dirt".to_string() }),
        ],
        metadata: StructureMetadata::default(),
    };

    let result = Structure::from_data(data, None);
    assert!(result.is_ok());
    let structure = result.unwrap();
    assert_eq!(structure.width, 3);
    assert_eq!(structure.height, 3);
}

fn create_test_prefab() -> Prefab {
    let data = PrefabData {
        name: "test".to_string(),
        width: 3,
        height: 3,
        pattern: vec!["###".to_string(), "#.#".to_string(), "###".to_string()],
        legend: vec![
            (
                "#".to_string(),
                PrefabLegendEntry { tile: "wall".to_string(), marker: None, mask: None },
            ),
            (
                ".".to_string(),
                PrefabLegendEntry { tile: "floor".to_string(), marker: None, mask: None },
            ),
        ],
        weight_bits: 1.0f32.to_bits(),
        tags: vec!["test".to_string()],
        faction: None,
        metadata: PrefabMetadata::default(),
    };

    Prefab::from_data(data).unwrap()
}

#[test]
fn test_prefab_from_data() {
    let prefab = create_test_prefab();
    assert_eq!(prefab.width, 3);
    assert_eq!(prefab.height, 3);
    assert_eq!(prefab.cells.len(), 9);
}

#[test]
fn test_prefab_get() {
    let prefab = create_test_prefab();
    assert_eq!(prefab.get(1, 1).unwrap().tile, "floor");
    assert_eq!(prefab.get(0, 0).unwrap().tile, "wall");
    assert!(prefab.get(3, 3).is_none());
}

#[test]
fn test_prefab_rotation() {
    let prefab = create_test_prefab();
    let rotated = prefab.rotated();

    assert_eq!(rotated.width, 3);
    assert_eq!(rotated.height, 3);
    assert_eq!(rotated.get(1, 1).unwrap().tile, "floor");
}

#[test]
fn test_prefab_mirror_horizontal() {
    let prefab = create_test_prefab();
    let mirrored = prefab.mirrored_horizontal();

    assert_eq!(mirrored.width, 3);
    assert_eq!(mirrored.height, 3);
    assert_eq!(mirrored.get(1, 1).unwrap().tile, "floor");
}

#[test]
fn test_prefab_mirror_vertical() {
    let prefab = create_test_prefab();
    let mirrored = prefab.mirrored_vertical();

    assert_eq!(mirrored.width, 3);
    assert_eq!(mirrored.height, 3);
    assert_eq!(mirrored.get(1, 1).unwrap().tile, "floor");
}

#[test]
fn test_population_calculation() {
    assert_eq!(calculate_population(SettlementTier::Village), 20);
    assert_eq!(calculate_population(SettlementTier::Town), 50);
    assert_eq!(calculate_population(SettlementTier::City), 100);
}

fn result(id: &str, passed: bool, severity: ConstraintSeverity) -> ConstraintResult {
    ConstraintResult { rule_id: id.to_string(), passed, severity, message: "Test".to_string() }
}

#[test]
fn test_critical_constraints_check() {
    let results = vec![
        result("critical1", true, ConstraintSeverity::Critical),
        result("warning1", false, ConstraintSeverity::Warning),
    ];
    assert!(ConstraintSystem::are_critical_constraints_satisfied(&results));

    let results_with_failed_critical = vec![result("critical1", false, ConstraintSeverity::Critical)];
    assert!(!ConstraintSystem::are_critical_constraints_satisfied(&results_with_failed_critical));
}

#[test]
fn test_critical_constraints_satisfaction() {
    let results = vec![
        result("critical1", true, ConstraintSeverity::Critical),
        result("warning1", false, ConstraintSeverity::Warning),
    ];
    assert!(ConstraintSystem::are_critical_constraints_satisfied(&results));

    let results_with_failed_critical = vec![result("critical1", false, ConstraintSeverity::Critical)];
    assert!(!ConstraintSystem::are_critical_constraints_satisfied(&results_with_failed_critical));
}
