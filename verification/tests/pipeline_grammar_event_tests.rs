use rand::SeedableRng;
use rand_chacha::ChaCha8Rng;
use saltglass_gen::algorithm::GenerationError;
use saltglass_gen::config::{ConfigurationLoader, GenerationConfiguration, GenerationPassConfig};
use saltglass_gen::events::{
    ConsequenceParams, DynamicEvent, EventChain, EventConsequence, EventContext, EventSystem, EventTrigger,
    TriggerConditions, VariableValue,
};
use saltglass_gen::grammar::{parse_expansion, Grammar, GrammarContext, GrammarRule, Segment};
use saltglass_gen::pipeline::{GenerationConfig, GenerationPass, GenerationPipeline, PassType};

fn pass(id: &str, pass_type: PassType, deps: &[&str]) -> GenerationPass {
    GenerationPass {
        id: id.to_string(),
        pass_type,
        config: serde_json::Value::Null,
        dependencies: deps.iter().map(|d| d.to_string()).collect(),
    }
}

#[test]
fn test_generation_pipeline_dependency_resolution() {
    let config = GenerationConfig {
        passes: vec![pass("terrain", PassType::Terrain, &[]), pass("features", PassType::Features, &["terrain"])],
    };
    let pipeline = GenerationPipeline::new(config);
    let sorted = pipeline.sort_passes_by_dependencies().unwrap();
    assert_eq!(sorted.len(), 2);
    assert_eq!(sorted[0].id, "terrain");
    assert_eq!(sorted[1].id, "features");
}

#[test]
fn test_generation_pipeline_circular_dependency() {
    let config = GenerationConfig {
        passes: vec![pass("a", PassType::Terrain, &["b"]), pass("b", PassType::Features, &["a"])],
    };
    let pipeline = GenerationPipeline::new(config);
    let result = pipeline.sort_passes_by_dependencies();
    assert!(result.is_err());
    assert!(result.unwrap_err().contains("Circular dependency"));
}

#[test]
fn pipeline_orders_dependencies_first_when_listed_last() {
    let config = GenerationConfig {
        passes: vec![
            pass("narrative", PassType::Narrative, &["entities"]),
            pass("entities", PassType::Entities, &["features", "terrain"]),
            pass("features", PassType::Features, &["terrain"]),
            pass("terrain", PassType::Terrain, &[]),
        ],
    };
    let pipeline = GenerationPipeline::new(config);
    let sorted = pipeline.sort_passes_by_dependencies().unwrap();
    let ids: Vec<&str> = sorted.iter().map(|p| p.id.as_str()).collect();
    assert_eq!(ids, vec!["terrain", "features", "entities", "narrative"]);
}

#[test]
fn pipeline_reports_missing_dependency() {
    let config = GenerationConfig { passes: vec![pass("features", PassType::Features, &["terrain"])] };
    let pipeline = GenerationPipeline::new(config);
    assert_eq!(pipeline.sort_passes_by_dependencies().unwrap_err(), "Dependency not found: terrain");
}

#[test]
fn pipeline_reports_self_cycle_by_name() {
    let config = GenerationConfig { passes: vec![pass("loop", PassType::Terrain, &["loop"])] };
    let pipeline = GenerationPipeline::new(config);
    assert_eq!(
        pipeline.sort_passes_by_dependencies().unwrap_err(),
        "Circular dependency detected involving pass: loop"
    );
}

fn pass_config(id: &str, algorithm: &str, deps: &[&str]) -> GenerationPassConfig {
    GenerationPassConfig {
        id: id.to_string(),
        algorithm: algorithm.to_string(),
        parameters: Vec::new(),
        dependencies: deps.iter().map(|d| d.to_string()).collect(),
        condition: None,
        input_layers: Vec::new(),
        output_layers: Vec::new(),
    }
}

#[test]
fn test_validation_duplicate_ids() {
    let config = GenerationConfiguration {
        passes: vec![pass_config("duplicate", "test", &[]), pass_config("duplicate", "test2", &[])],
        metadata: Vec::new(),
    };
    assert!(ConfigurationLoader::validate_configuration(&config).is_err());
}

fn invalid_message(r: Result<(), GenerationError>) -> String {
    match r {
        Err(GenerationError::InvalidParameters(m)) => m,
        other => panic!("unexpected result {:?}", other),
    }
}

#[test]
fn config_validation_messages() {
    let dup = GenerationConfiguration {
        passes: vec![pass_config("a", "x", &[]), pass_config("a", "y", &[])],
        metadata: Vec::new(),
    };
    assert_eq!(invalid_message(ConfigurationLoader::validate_configuration(&dup)), "Duplicate pass ID: a");
    let missing = GenerationConfiguration {
        passes: vec![pass_config("a", "x", &["ghost"])],
        metadata: Vec::new(),
    };
    assert_eq!(
        invalid_message(ConfigurationLoader::validate_configuration(&missing)),
        "Pass 'a' depends on non-existent pass 'ghost'"
    );
    let selfdep = GenerationConfiguration {
        passes: vec![pass_config("a", "x", &["a"])],
        metadata: Vec::new(),
    };
    assert_eq!(
        invalid_message(ConfigurationLoader::validate_configuration(&selfdep)),
        "Pass 'a' cannot depend on itself"
    );
    let fine = GenerationConfiguration {
        passes: vec![pass_config("a", "x", &[]), pass_config("b", "y", &["a"])],
        metadata: Vec::new(),
    };
    assert!(ConfigurationLoader::validate_configuration(&fine).is_ok());
}

fn rule(name: &str, expansions: &[&str], weights: Option<Vec<u32>>) -> (String, GrammarRule) {
    (
        name.to_string(),
        GrammarRule { expansions: expansions.iter().map(|e| e.to_string()).collect(), weights },
    )
}

#[test]
fn test_grammar_basic_generation() {
    let mut grammar = Grammar::new();
    grammar.rules.push(rule("greeting", &["Hello", "Hi", "Greetings"], None));
    let context = GrammarContext { variables: Vec::new() };
    let mut rng = ChaCha8Rng::seed_from_u64(12345);
    let result = grammar.generate("greeting", &context, &mut rng).unwrap();
    assert!(["Hello", "Hi", "Greetings"].contains(&result.as_str()));
    let mut rng2 = ChaCha8Rng::seed_from_u64(12345);
    let result2 = grammar.generate("greeting", &context, &mut rng2).unwrap();
    assert_eq!(result, result2);
}

#[test]
fn test_grammar_recursive_expansion() {
    let mut grammar = Grammar::new();
    grammar.rules.push(rule("sentence", &["<subject> <verb> <object>"], None));
    grammar.rules.push(rule("subject", &["The storm", "Glass"], None));
    grammar.rules.push(rule("verb", &["breaks", "shatters"], None));
    grammar.rules.push(rule("object", &["reality", "silence"], None));
    let context = GrammarContext { variables: Vec::new() };
    let mut rng = ChaCha8Rng::seed_from_u64(12345);
    let result = grammar.generate("sentence", &context, &mut rng).unwrap();
    assert!(result.contains(" "));
    assert!(result.len() > 5);
}

#[test]
fn test_grammar_weighted_selection() {
    let mut grammar = Grammar::new();
    grammar.rules.push(rule("weighted_rule", &["rare", "common"], Some(vec![10, 90])));
    let context = GrammarContext { variables: Vec::new() };
    let mut rng = ChaCha8Rng::seed_from_u64(12345);
    let result = grammar.generate("weighted_rule", &context, &mut rng).unwrap();
    assert!(["rare", "common"].contains(&result.as_str()));
}

#[test]
fn test_grammar_variable_substitution() {
    let mut grammar = Grammar::new();
    grammar.rules.push(rule("greeting", &["Hello <name>"], None));
    let context = GrammarContext { variables: vec![("name".to_string(), "Traveler".to_string())] };
    let mut rng = ChaCha8Rng::seed_from_u64(12345);
    let result = grammar.generate("greeting", &context, &mut rng).unwrap();
    assert_eq!(result, "Hello Traveler");
}

#[test]
fn test_grammar_recursion_limit() {
    let mut grammar = Grammar::new();
    grammar.rules.push(rule("infinite", &["<infinite>"], None));
    let context = GrammarContext { variables: Vec::new() };
    let mut rng = ChaCha8Rng::seed_from_u64(12345);
    let result = grammar.generate("infinite", &context, &mut rng);
    assert!(result.is_err());
    assert!(result.unwrap_err().contains("recursion"));
}

#[test]
fn grammar_errors_and_malformed_references() {
    let mut grammar = Grammar::new();
    grammar.rules.push(rule("empty", &[], None));
    grammar.rules.push(rule("mismatch", &["a", "b"], Some(vec![1])));
    grammar.rules.push(rule("zero", &["first", "second"], Some(vec![0, 0])));
    grammar.rules.push(rule("odd", &["a <> b <open"], None));
    let context = GrammarContext { variables: Vec::new() };
    let mut rng = ChaCha8Rng::seed_from_u64(7);
    assert_eq!(grammar.generate("nowhere", &context, &mut rng).unwrap_err(), "Rule not found: nowhere");
    assert_eq!(grammar.generate("empty", &context, &mut rng).unwrap_err(), "Rule has no expansions");
    assert_eq!(
        grammar.generate("mismatch", &context, &mut rng).unwrap_err(),
        "Weights count doesn't match expansions count"
    );
    assert_eq!(grammar.generate("zero", &context, &mut rng).unwrap(), "first");
    assert_eq!(grammar.generate("odd", &context, &mut rng).unwrap(), "a < b <open");
}

#[test]
fn grammar_parse_segments() {
    let segs = parse_expansion(&"Hi <name>!".to_string());
    let shown: Vec<String> = segs
        .iter()
        .map(|s| match s {
            Segment::Text(t) => format!("T:{}", t),
            Segment::Rule(r) => format!("R:{}", r),
        })
        .collect();
    assert_eq!(shown, vec!["T:H", "T:i", "T: ", "R:name", "T:!"]);
}

fn trigger(kind: &str, conditions: TriggerConditions, probability: u32) -> EventTrigger {
    EventTrigger { trigger_type: kind.to_string(), conditions, probability }
}

fn no_conditions() -> TriggerConditions {
    TriggerConditions { threshold: None, biome: None, min_intensity: None, multiple: None, min_level: None }
}

fn create_test_context() -> EventContext {
    EventContext {
        player_hp: 50,
        player_max_hp: 100,
        player_x: 10,
        player_y: 10,
        turn: 100,
        biome: "desert".to_string(),
        storm_intensity: 3,
        refraction_level: 25,
        variables: Vec::new(),
    }
}

#[test]
fn test_hp_trigger_evaluation() {
    let mut rng = ChaCha8Rng::seed_from_u64(12345);
    let t = trigger("player_hp_below", TriggerConditions { threshold: Some(600), ..no_conditions() }, 1_000_000);
    let context = create_test_context();
    assert!(EventSystem::evaluate_trigger(&t, &context, &mut rng));
}

#[test]
fn test_biome_trigger_evaluation() {
    let mut rng = ChaCha8Rng::seed_from_u64(12345);
    let t = trigger("biome_match", TriggerConditions { biome: Some("desert".to_string()), ..no_conditions() }, 1_000_000);
    let context = create_test_context();
    assert!(EventSystem::evaluate_trigger(&t, &context, &mut rng));
}

#[test]
fn test_storm_intensity_trigger() {
    let mut rng = ChaCha8Rng::seed_from_u64(12345);
    let t = trigger("storm_intensity", TriggerConditions { min_intensity: Some(2), ..no_conditions() }, 1_000_000);
    let context = create_test_context();
    assert!(EventSystem::evaluate_trigger(&t, &context, &mut rng));
}

#[test]
fn trigger_conditions_edge_cases() {
    let context = create_test_context();
    let exact = trigger("player_hp_below", TriggerConditions { threshold: Some(500), ..no_conditions() }, 1_000_000);
    assert!(!EventSystem::trigger_condition(&exact, &context));
    let turn = trigger("turn_multiple", TriggerConditions { multiple: Some(25), ..no_conditions() }, 1_000_000);
    assert!(EventSystem::trigger_condition(&turn, &context));
    let turn3 = trigger("turn_multiple", TriggerConditions { multiple: Some(3), ..no_conditions() }, 1_000_000);
    assert!(!EventSystem::trigger_condition(&turn3, &context));
    let refr = trigger("refraction_level", TriggerConditions { min_level: Some(26), ..no_conditions() }, 1_000_000);
    assert!(!EventSystem::trigger_condition(&refr, &context));
    let unknown = trigger("phase_of_moon", no_conditions(), 1_000_000);
    assert!(!EventSystem::trigger_condition(&unknown, &context));
    let never = trigger("biome_match", TriggerConditions { biome: Some("desert".to_string()), ..no_conditions() }, 0);
    let mut rng = ChaCha8Rng::seed_from_u64(1);
    assert!(!EventSystem::evaluate_trigger(&never, &context, &mut rng));
}

fn consequence(kind: &str, signed: Option<i64>, unsigned: Option<u64>, message: Option<&str>) -> EventConsequence {
    EventConsequence {
        consequence_type: kind.to_string(),
        parameters: ConsequenceParams {
            amount_signed: signed,
            amount_unsigned: unsigned,
            message: message.map(|m| m.to_string()),
        },
    }
}

fn event(id: &str, triggers: Vec<EventTrigger>, consequences: Vec<EventConsequence>, chains_to: Option<&str>) -> DynamicEvent {
    DynamicEvent {
        id: id.to_string(),
        name: "Test Event".to_string(),
        description: "A test event".to_string(),
        triggers,
        consequences,
        chains_to: chains_to.map(|c| c.to_string()),
        weight: 1_000_000,
        cooldown_turns: 10,
    }
}

#[test]
fn events_test_event_consequences() {
    let mut context = create_test_context();
    let e = event(
        "test_event",
        vec![],
        vec![
            consequence("damage_player", Some(10), Some(10), None),
            consequence("environmental_story", None, None, Some("The glass shimmers ominously.")),
        ],
        None,
    );
    let system = EventSystem::new(vec![e], vec![]);
    let messages = system.apply_consequences("test_event", &mut context);
    assert_eq!(messages.len(), 2);
    assert!(messages[0].contains("10 damage"));
    assert!(messages[1].contains("glass shimmers"));
    assert!(context.variables.iter().any(|(k, _)| k == "damage_taken"));
}

#[test]
fn event_consequence_messages_exact() {
    let mut context = create_test_context();
    let e = event(
        "mixed",
        vec![],
        vec![
            consequence("heal_player", Some(-3), None, None),
            consequence("add_refraction", None, Some(7), None),
            consequence("damage_player", Some(4), None, None),
            consequence("damage_player", Some(6), None, None),
            consequence("unknown_kind", Some(1), Some(1), Some("x")),
        ],
        None,
    );
    let system = EventSystem::new(vec![e], vec![]);
    let messages = system.apply_consequences("mixed", &mut context);
    assert_eq!(
        messages,
        vec![
            "You recover -3 health from Test Event",
            "Glass energy courses through you (+7 Refraction)",
            "You take 4 damage from Test Event",
            "You take 6 damage from Test Event",
        ]
    );
    assert_eq!(
        context.variables,
        vec![
            ("healing_received".to_string(), VariableValue::Int(-3)),
            ("refraction_gained".to_string(), VariableValue::UInt(7)),
            ("damage_taken".to_string(), VariableValue::Int(6)),
        ]
    );
    assert!(system.apply_consequences("absent", &mut context).is_empty());
}

#[test]
fn test_event_cooldown() {
    let mut rng = ChaCha8Rng::seed_from_u64(12345);
    let context = create_test_context();
    let e = event(
        "test_event",
        vec![trigger("biome_match", TriggerConditions { biome: Some("desert".to_string()), ..no_conditions() }, 1_000_000)],
        vec![],
        None,
    );
    let mut system = EventSystem::new(vec![e], vec![]);
    system.event_cooldowns.push(("test_event".to_string(), context.turn + 5));
    let triggered = system.check_triggers(&context, &mut rng);
    assert!(!triggered.contains(&"test_event".to_string()));
}

fn oasis_context() -> EventContext {
    EventContext {
        player_hp: 50,
        player_max_hp: 100,
        player_x: 10,
        player_y: 10,
        turn: 100,
        biome: "oasis".to_string(),
        storm_intensity: 2,
        refraction_level: 20,
        variables: Vec::new(),
    }
}

fn oasis_system() -> EventSystem {
    let blessing = event(
        "oasis_blessing",
        vec![trigger("biome_match", TriggerConditions { biome: Some("oasis".to_string()), ..no_conditions() }, 1_000_000)],
        vec![consequence("heal_player", Some(10), Some(10), None)],
        None,
    );
    let storm = event(
        "glass_storm_exposure",
        vec![trigger("storm_intensity", TriggerConditions { min_intensity: Some(4), ..no_conditions() }, 1_000_000)],
        vec![consequence("add_refraction", Some(5), Some(5), None)],
        Some("refraction_cascade"),
    );
    let chain = EventChain {
        chain_id: "refraction_cascade".to_string(),
        events: vec!["glass_storm_exposure".to_string(), "oasis_blessing".to_string()],
        delay_turns: vec![0, 5],
    };
    EventSystem::new(vec![blessing, storm], vec![chain])
}

#[test]
fn tests_test_event_system_creation() {
    let system = oasis_system();
    assert!(system.event_count() > 0);
}

#[test]
fn test_event_trigger_evaluation() {
    let mut system = oasis_system();
    let mut rng = ChaCha8Rng::seed_from_u64(12345);
    let triggered = system.check_triggers(&oasis_context(), &mut rng);
    assert!(!triggered.is_empty());
}

#[test]
fn tests_test_event_consequences() {
    let system = oasis_system();
    let mut context = oasis_context();
    let messages = system.apply_consequences("oasis_blessing", &mut context);
    assert!(!messages.is_empty());
    assert!(context.variables.iter().any(|(k, _)| k == "healing_received"));
}

#[test]
fn test_event_chains() {
    let system = oasis_system();
    let chain = system.get_event_chains("glass_storm_exposure");
    assert!(chain.is_some());
    let chain = chain.unwrap();
    assert_eq!(chain.chain_id, "refraction_cascade");
    assert!(!chain.events.is_empty());
    assert!(system.get_event_chains("oasis_blessing").is_none());
}

#[test]
fn test_event_cooldown_system() {
    let mut system = oasis_system();
    let mut rng = ChaCha8Rng::seed_from_u64(12345);
    let context = oasis_context();
    let triggered1 = system.check_triggers(&context, &mut rng);
    let mut rng2 = ChaCha8Rng::seed_from_u64(12345);
    let triggered2 = system.check_triggers(&context, &mut rng2);
    assert!(triggered2.len() < triggered1.len() || triggered1.is_empty());
    assert!(system.event_cooldowns.contains(&("oasis_blessing".to_string(), 110)));
}

#[test]
fn events_test_event_system_creation() {
    let system = oasis_system();
    assert!(!system.events.is_empty());
}

#[test]
fn biome_story_lines_use_biome_weather_and_time() {
    let mut grammar = Grammar::new();
    grammar.rules.push(rule("dust", &["The <weather> <time> over <biome>"], None));
    let context = saltglass_gen::biomes::BiomeGenerationContext {
        biome: saltglass_gen::map::Biome::Desert,
        storm_intensity: 0,
        time_of_day: "night".to_string(),
        weather_conditions: "windy".to_string(),
        player_adaptations: vec![],
    };
    let mut rng = ChaCha8Rng::seed_from_u64(3);
    let lines = saltglass_gen::biomes::generate_story_elements(
        &grammar,
        &"Saltflat".to_string(),
        &vec!["dust".to_string(), "missing".to_string()],
        &context,
        &mut rng,
    );
    assert_eq!(lines, vec!["The windy night over Saltflat".to_string()]);
}
