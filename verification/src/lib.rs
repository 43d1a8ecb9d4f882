//! Procedural generation rules for the Saltglass Steppe: tile maps, connectivity
//! analysis, map constraint helpers, settlement layout, prefab transforms,
//! structure patterns, spawn tables and the item/interactable registries.
#![allow(unused_imports)]

pub mod map;
pub mod connectivity;
pub mod constraints;
pub mod rng;
pub mod structures;
pub mod algorithms;
pub mod text;
pub mod item;
pub mod weapon;
pub mod interactable;
pub mod weighted;
pub mod light_defs;
pub mod lighting;
pub mod light;
pub mod spawn;
pub mod inspect;
pub mod biomes;
pub mod structure_library;
pub mod settlement;
pub mod poi;
pub mod algorithm;
pub mod keyboard_config;
pub mod feature_registry;
pub mod layered;
pub mod quest_constraints;
pub mod tile_generator;
pub mod tile_content;
pub mod events;
pub mod grammar;
pub mod narrative;
pub mod pipeline;
pub mod spatial;
pub mod config;
pub mod dungeon_generator;
pub mod environmental_props;
pub mod constraint_rules;
pub mod graph;
pub mod tunnel_selection;

use vstd::prelude::*;

verus! {

} // verus!
