//! The context biome generation runs in, which atmospheric triggers it sets
//! off, and the story lines a biome's themes expand to.

use vstd::prelude::*;
use crate::map::Biome;
use rand_chacha::ChaCha8Rng;
use crate::grammar::{Grammar, GrammarContext, grammar_wf, rule_derives};

verus! {

/// The conditions a biome is being generated under.
#[derive(Debug, Clone)]
pub struct BiomeGenerationContext {
    pub biome: Biome,
    pub storm_intensity: u8,
    pub time_of_day: String,
    pub weather_conditions: String,
    pub player_adaptations: Vec<String>,
}

/// The trigger fires in this context: "storm" in a storm stronger than 3,
/// "night" and "day" at those times, "adapted" once the player has an
/// adaptation.
pub open spec fn trigger_fires(t: Seq<char>, ctx: BiomeGenerationContext) -> bool {
    ||| t == "storm"@ && ctx.storm_intensity > 3
    ||| t == "night"@ && ctx.time_of_day@ == "night"@
    ||| t == "day"@ && ctx.time_of_day@ == "day"@
    ||| t == "adapted"@ && ctx.player_adaptations@.len() > 0
}

/// Position of the first trigger that fires, if any.
pub open spec fn first_firing(triggers: Seq<String>, ctx: BiomeGenerationContext) -> Option<int>
    decreases triggers.len(),
{
    if triggers.len() == 0 {
        None
    } else if trigger_fires(triggers[0]@, ctx) {
        Some(0)
    } else {
        match first_firing(triggers.subrange(1, triggers.len() as int), ctx) {
            Some(j) => Some(j + 1),
            None => None,
        }
    }
}

/// Whether one trigger fires in the context.
pub fn trigger_fires_exec(t: &String, ctx: &BiomeGenerationContext) -> (b: bool)
    ensures
        b == trigger_fires(t@, *ctx),
{
    let storm = String::from_str("storm");
    let night = String::from_str("night");
    let day = String::from_str("day");
    let adapted = String::from_str("adapted");
    (*t == storm && ctx.storm_intensity > 3) || (*t == night && ctx.time_of_day == night) || (*t == day
        && ctx.time_of_day == day) || (*t == adapted && ctx.player_adaptations.len() > 0)
}

/// The first of an atmospheric element's triggers that fires in the
/// context; the element's chance is rolled on that trigger, or on the
/// default chance when none fires.
pub fn first_active_trigger(triggers: &Vec<String>, ctx: &BiomeGenerationContext) -> (r: Option<usize>)
    ensures
        r matches Some(i) ==> first_firing(triggers@, *ctx) == Some(i as int),
        r is None ==> first_firing(triggers@, *ctx) is None,
{
    let mut i: usize = 0;
    assert(triggers@.subrange(0, triggers@.len() as int) =~= triggers@);
    while i < triggers.len()
        invariant
            i <= triggers@.len(),
            first_firing(triggers@, *ctx) == match first_firing(triggers@.subrange(i as int, triggers@.len() as int), *ctx) {
                Some(j) => Some(j + i),
                None => None,
            },
        decreases triggers@.len() - i,
    {
        let ghost rest = triggers@.subrange(i as int, triggers@.len() as int);
        assert(rest[0] == triggers@[i as int]);
        if trigger_fires_exec(&triggers[i], ctx) {
            return Some(i);
        }
        assert(rest.subrange(1, rest.len() as int) =~= triggers@.subrange(i + 1, triggers@.len() as int));
        i = i + 1;
    }
    None
}

/// Name/value pairs as character sequences.
pub open spec fn text_pairs(v: Seq<(String, String)>) -> Seq<(Seq<char>, Seq<char>)> {
    v.map_values(|p: (String, String)| (p.0@, p.1@))
}

/// The line is a successful expansion of one of the themes.
pub open spec fn from_some_theme(g: Grammar, ctx: GrammarContext, themes: Seq<String>, line: Seq<char>) -> bool {
    exists|t: int| 0 <= t < themes.len() && rule_derives(g, ctx, #[trigger] themes[t]@, 0, line)
}

/// The grammar variables story lines see: the biome's name, the weather and
/// the time of day.
pub open spec fn story_context(biome_name: Seq<char>, ctx: BiomeGenerationContext) -> Seq<(Seq<char>, Seq<char>)> {
    seq![("biome"@, biome_name), ("weather"@, ctx.weather_conditions@), ("time"@, ctx.time_of_day@)]
}

/// The story lines of a biome: each theme expanded as a grammar rule with the
/// biome, weather and time as variables; themes whose expansion fails give
/// no line.
pub fn generate_story_elements(
    grammar: &Grammar,
    biome_name: &String,
    story_themes: &Vec<String>,
    context: &BiomeGenerationContext,
    rng: &mut ChaCha8Rng,
) -> (lines: Vec<String>)
    requires
        grammar_wf(*grammar),
    ensures
        lines@.len() <= story_themes@.len(),
        exists|g: GrammarContext| #[trigger] text_pairs(g.variables@) == story_context(
            biome_name@,
            *context,
        ) && forall|k: int| 0 <= k < lines@.len() ==> from_some_theme(*grammar, g, story_themes@, (#[trigger] lines@[k])@),
{
    let mut vars: Vec<(String, String)> = Vec::new();
    vars.push((String::from_str("biome"), biome_name.clone()));
    vars.push((String::from_str("weather"), context.weather_conditions.clone()));
    vars.push((String::from_str("time"), context.time_of_day.clone()));
    let g = GrammarContext { variables: vars };
    proof {
        assert(text_pairs(g.variables@) =~= story_context(biome_name@, *context));
    }
    let mut lines: Vec<String> = Vec::new();
    let mut t: usize = 0;
    while t < story_themes.len()
        invariant
            grammar_wf(*grammar),
            text_pairs(g.variables@) == story_context(biome_name@, *context),
            t <= story_themes@.len(),
            lines@.len() <= t,
            forall|k: int| 0 <= k < lines@.len() ==> from_some_theme(*grammar, g, story_themes@, (#[trigger] lines@[k])@),
        decreases story_themes@.len() - t,
    {
        match grammar.generate(story_themes[t].as_str(), &g, rng) {
            Ok(line) => {
                let ghost before = lines@;
                lines.push(line);
                proof {
                    assert forall|k: int| 0 <= k < lines@.len() implies from_some_theme(*grammar, g, story_themes@, (#[trigger] lines@[k])@) by {
                        if k < before.len() {
                            assert(lines@[k] == before[k]);
                        } else {
                            assert(rule_derives(*grammar, g, story_themes@[t as int]@, 0, lines@[k]@));
                        }
                    }
                }
            },
            Err(_) => {},
        }
        t = t + 1;
    }
    proof {
        assert(text_pairs(g.variables@) == story_context(biome_name@, *context));
    }
    lines
}

} // verus!
