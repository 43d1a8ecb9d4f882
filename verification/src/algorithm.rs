//! The vocabulary shared by generation algorithms: layer and parameter
//! kinds, the errors they report, and the registry's performance and layer
//! descriptions with the comparisons made on them.

use vstd::prelude::*;
use crate::item::{lists, contains_str};

verus! {

/// Kinds of data a generation layer holds.
#[derive(Debug, Clone)]
pub enum LayerType {
    Heightmap,
    Moisture,
    Temperature,
    Density,
    Mask,
    Flow,
    Custom(String),
}

/// Kinds of algorithm parameter.
#[derive(Debug)]
pub enum ParameterType {
    Float,
    Integer,
    Boolean,
    String,
    Array(Box<ParameterType>),
}

/// Why a generation run failed.
#[derive(Debug, Clone)]
pub enum GenerationError {
    InvalidContext(String),
    InvalidParameters(String),
    ExecutionFailed(String),
    ResourceExhausted(String),
    Other(String),
}

/// The message a generation error is shown with.
pub open spec fn generation_error_text(e: GenerationError) -> Seq<char> {
    match e {
        GenerationError::InvalidContext(m) => "Invalid context: "@ + m@,
        GenerationError::InvalidParameters(m) => "Invalid parameters: "@ + m@,
        GenerationError::ExecutionFailed(m) => "Execution failed: "@ + m@,
        GenerationError::ResourceExhausted(m) => "Resource exhausted: "@ + m@,
        GenerationError::Other(m) => "Generation error: "@ + m@,
    }
}

fn prefixed(prefix: &str, m: &String) -> (s: String)
    ensures
        s@ == prefix@ + m@,
{
    let mut s = String::from_str(prefix);
    s.append(m.as_str());
    s
}

impl GenerationError {
    /// The message the error is shown with.
    pub fn describe(&self) -> (s: String)
        ensures
            s@ == generation_error_text(*self),
    {
        match self {
            GenerationError::InvalidContext(m) => prefixed("Invalid context: ", m),
            GenerationError::InvalidParameters(m) => prefixed("Invalid parameters: ", m),
            GenerationError::ExecutionFailed(m) => prefixed("Execution failed: ", m),
            GenerationError::ResourceExhausted(m) => prefixed("Resource exhausted: ", m),
            GenerationError::Other(m) => prefixed("Generation error: ", m),
        }
    }
}

/// A failed check of a context or a parameter.
#[derive(Debug, Clone)]
pub struct ValidationError {
    pub message: String,
    pub field: Option<String>,
}

impl ValidationError {
    /// The message the error is shown with, naming the field when there is one.
    pub fn describe(&self) -> (s: String)
        ensures
            s@ == match self.field {
                Some(f) => "Validation error in "@ + f@ + ": "@ + self.message@,
                None => "Validation error: "@ + self.message@,
            },
    {
        match &self.field {
            Some(f) => {
                let mut s = prefixed("Validation error in ", f);
                s.append(": ");
                s.append(self.message.as_str());
                s
            },
            None => prefixed("Validation error: ", &self.message),
        }
    }
}

/// How long an algorithm typically takes.
#[derive(Debug, Clone, Copy, PartialEq, Eq, Structural)]
pub enum SpeedCategory {
    VeryFast,
    Fast,
    Medium,
    Slow,
    VerySlow,
}

/// How much memory an algorithm typically uses.
#[derive(Debug, Clone, Copy, PartialEq, Eq, Structural)]
pub enum MemoryCategory {
    Low,
    Medium,
    High,
    VeryHigh,
}

/// How hard an algorithm works the processor.
#[derive(Debug, Clone, Copy, PartialEq, Eq, Structural)]
pub enum CpuCategory {
    Light,
    Medium,
    Heavy,
    VeryHeavy,
}

/// Performance characteristics of an algorithm.
#[derive(Debug, Clone, Copy)]
pub struct PerformanceProfile {
    pub speed: SpeedCategory,
    pub memory_usage: MemoryCategory,
    pub cpu_intensity: CpuCategory,
    pub parallelizable: bool,
}

/// The layers an algorithm consumes and produces.
#[derive(Debug, Clone)]
pub struct SupportedLayers {
    pub input_layers: Vec<String>,
    pub output_layers: Vec<String>,
    /// Layers that must be present.
    pub required_inputs: Vec<String>,
    /// Layers used when present.
    pub optional_inputs: Vec<String>,
}

/// Counts over the registered algorithms.
#[derive(Debug, Clone)]
pub struct RegistryStatistics {
    pub total_algorithms: usize,
    pub categories: Vec<(String, usize)>,
    pub performance_distribution: Vec<(String, usize)>,
}

/// Rank of a speed, fastest first.
pub open spec fn speed_rank(s: SpeedCategory) -> u8 {
    match s {
        SpeedCategory::VeryFast => 0,
        SpeedCategory::Fast => 1,
        SpeedCategory::Medium => 2,
        SpeedCategory::Slow => 3,
        SpeedCategory::VerySlow => 4,
    }
}

/// Rank of a memory use, lightest first.
pub open spec fn memory_rank(m: MemoryCategory) -> u8 {
    match m {
        MemoryCategory::Low => 0,
        MemoryCategory::Medium => 1,
        MemoryCategory::High => 2,
        MemoryCategory::VeryHigh => 3,
    }
}

pub fn speed_level(speed: SpeedCategory) -> (r: u8)
    ensures
        r == speed_rank(speed),
{
    match speed {
        SpeedCategory::VeryFast => 0,
        SpeedCategory::Fast => 1,
        SpeedCategory::Medium => 2,
        SpeedCategory::Slow => 3,
        SpeedCategory::VerySlow => 4,
    }
}

pub fn memory_level(memory: MemoryCategory) -> (r: u8)
    ensures
        r == memory_rank(memory),
{
    match memory {
        MemoryCategory::Low => 0,
        MemoryCategory::Medium => 1,
        MemoryCategory::High => 2,
        MemoryCategory::VeryHigh => 3,
    }
}

/// The profile is no slower and no hungrier than the limits.
pub fn within_performance(profile: &PerformanceProfile, max_speed: SpeedCategory, max_memory: MemoryCategory) -> (b: bool)
    ensures
        b == (speed_rank(profile.speed) <= speed_rank(max_speed) && memory_rank(profile.memory_usage) <= memory_rank(max_memory)),
{
    speed_level(profile.speed) <= speed_level(max_speed) && memory_level(profile.memory_usage) <= memory_level(max_memory)
}

/// Every string of `wanted` is listed in `a` or in `b`.
pub open spec fn all_listed(wanted: Seq<String>, a: Seq<String>, b: Seq<String>) -> bool {
    forall|i: int| 0 <= i < wanted.len() ==> lists(a, (#[trigger] wanted[i])@) || lists(b, wanted[i]@)
}

fn all_in(wanted: &Vec<String>, a: &Vec<String>, b: &Vec<String>) -> (r: bool)
    ensures
        r == all_listed(wanted@, a@, b@),
{
    let mut i: usize = 0;
    while i < wanted.len()
        invariant
            i <= wanted@.len(),
            forall|k: int| 0 <= k < i ==> lists(a@, (#[trigger] wanted@[k])@) || lists(b@, wanted@[k]@),
        decreases wanted@.len() - i,
    {
        if !contains_str(a, &wanted[i]) && !contains_str(b, &wanted[i]) {
            return false;
        }
        i = i + 1;
    }
    true
}

/// The algorithm can consume every required layer, as an input or an
/// optional input.
pub fn consumes_all(layers: &SupportedLayers, required: &Vec<String>) -> (b: bool)
    ensures
        b == all_listed(required@, layers.input_layers@, layers.optional_inputs@),
{
    all_in(required, &layers.input_layers, &layers.optional_inputs)
}

/// The algorithm produces every required layer.
pub fn produces_all(layers: &SupportedLayers, required: &Vec<String>) -> (b: bool)
    ensures
        b == all_listed(required@, layers.output_layers@, layers.output_layers@),
{
    all_in(required, &layers.output_layers, &layers.output_layers)
}

/// A consumer can follow a producer in a chain when the producer outputs
/// every layer the consumer requires.
pub fn chain_compatible(producer: &SupportedLayers, consumer: &SupportedLayers) -> (b: bool)
    ensures
        b == all_listed(consumer.required_inputs@, producer.output_layers@, producer.output_layers@),
{
    all_in(&consumer.required_inputs, &producer.output_layers, &producer.output_layers)
}

} // verus!
