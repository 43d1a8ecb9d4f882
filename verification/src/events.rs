//! Dynamic events: triggers checked against the player's situation, the
//! consequences an event applies, cooldowns, and chains of follow-up events.
//! Probabilities are in millionths and ratio thresholds in thousandths.

use vstd::prelude::*;
use rand_chacha::ChaCha8Rng;
use crate::rng::gen_range_u32;
use crate::text::{push_decimal_u128, decimal};

verus! {

/// The conditions a trigger reads, as given in its definition.
#[derive(Debug, Clone)]
pub struct TriggerConditions {
    /// `player_hp_below`: the health share, in thousandths.
    pub threshold: Option<u32>,
    /// `biome_match`: the biome's name.
    pub biome: Option<String>,
    /// `storm_intensity`: the least intensity.
    pub min_intensity: Option<u64>,
    /// `turn_multiple`: the period in turns.
    pub multiple: Option<u64>,
    /// `refraction_level`: the least refraction.
    pub min_level: Option<u64>,
}

/// A trigger: its kind, its conditions and its chance in millionths.
#[derive(Debug, Clone)]
pub struct EventTrigger {
    pub trigger_type: String,
    pub conditions: TriggerConditions,
    pub probability: u32,
}

/// The parameters a consequence reads: an amount taken as a signed or as an
/// unsigned integer, and a message.
#[derive(Debug, Clone)]
pub struct ConsequenceParams {
    pub amount_signed: Option<i64>,
    pub amount_unsigned: Option<u64>,
    pub message: Option<String>,
}

/// What an event does when it fires.
#[derive(Debug, Clone)]
pub struct EventConsequence {
    pub consequence_type: String,
    pub parameters: ConsequenceParams,
}

/// A chain of events that follow one another.
#[derive(Debug, Clone)]
pub struct EventChain {
    pub chain_id: String,
    pub events: Vec<String>,
    pub delay_turns: Vec<u32>,
}

/// An event definition. `weight` is in millionths.
#[derive(Debug, Clone)]
pub struct DynamicEvent {
    pub id: String,
    pub name: String,
    pub description: String,
    pub triggers: Vec<EventTrigger>,
    pub consequences: Vec<EventConsequence>,
    pub chains_to: Option<String>,
    pub weight: u32,
    pub cooldown_turns: u32,
}

/// A numeric world variable set by events.
#[derive(Debug, Clone, Copy, PartialEq, Eq)]
pub enum VariableValue {
    Int(i64),
    UInt(u64),
}

/// The player's situation that triggers are checked against.
#[derive(Debug, Clone)]
pub struct EventContext {
    pub player_hp: i32,
    pub player_max_hp: i32,
    pub player_x: i32,
    pub player_y: i32,
    pub turn: u32,
    pub biome: String,
    pub storm_intensity: u8,
    pub refraction_level: u32,
    /// Each name occurs once.
    pub variables: Vec<(String, VariableValue)>,
}

/// The loaded events and chains, and the turn until which each event rests.
pub struct EventSystem {
    pub events: Vec<DynamicEvent>,
    pub chains: Vec<EventChain>,
    pub active_events: Vec<String>,
    pub event_cooldowns: Vec<(String, u32)>,
}

/// `hp / max_hp < threshold / 1000`, compared exactly; with no maximum the
/// share is infinite for positive health, minus infinite for negative health
/// and undefined (never below anything) at zero.
pub open spec fn hp_share_below(hp: int, max_hp: int, threshold: int) -> bool {
    if max_hp > 0 {
        hp * 1000 < threshold * max_hp
    } else if max_hp < 0 {
        hp * 1000 > threshold * max_hp
    } else {
        hp < 0
    }
}

/// Whether a trigger's condition holds in the context, the chance aside.
pub open spec fn condition_holds(t: EventTrigger, c: EventContext) -> bool {
    let k = t.trigger_type@;
    if k == "player_hp_below"@ {
        match t.conditions.threshold {
            Some(th) => hp_share_below(c.player_hp as int, c.player_max_hp as int, th as int),
            None => false,
        }
    } else if k == "biome_match"@ {
        match t.conditions.biome {
            Some(b) => c.biome@ == b@,
            None => false,
        }
    } else if k == "storm_intensity"@ {
        match t.conditions.min_intensity {
            Some(m) => c.storm_intensity >= m % 256,
            None => false,
        }
    } else if k == "turn_multiple"@ {
        match t.conditions.multiple {
            Some(m) => (c.turn as int) % ((m as int) % 0x1_0000_0000) == 0,
            None => false,
        }
    } else if k == "refraction_level"@ {
        match t.conditions.min_level {
            Some(m) => c.refraction_level >= m % 0x1_0000_0000,
            None => false,
        }
    } else {
        false
    }
}

/// A `turn_multiple` trigger has a period that is not zero as a `u32`.
pub open spec fn trigger_wf(t: EventTrigger) -> bool {
    t.trigger_type@ == "turn_multiple"@ ==> match t.conditions.multiple {
        Some(m) => m % 0x1_0000_0000 != 0,
        None => true,
    }
}

impl EventSystem {
    /// The trigger's condition, the chance aside.
    pub fn trigger_condition(trigger: &EventTrigger, context: &EventContext) -> (b: bool)
        requires
            trigger_wf(*trigger),
        ensures
            b == condition_holds(*trigger, *context),
    {
        let k = &trigger.trigger_type;
        let c = &trigger.conditions;
        if *k == String::from_str("player_hp_below") {
            match c.threshold {
                Some(th) => {
                    let hp = context.player_hp as i64;
                    let max = context.player_max_hp as i64;
                    let t = th as i64;
                    proof {
                        assert(-0x8000_0000_0000_0000 < t * max < 0x8000_0000_0000_0000) by (nonlinear_arith)
                            requires
                                0 <= t <= u32::MAX,
                                i32::MIN <= max <= i32::MAX,
                        ;
                    }
                    if max > 0 {
                        hp * 1000 < t * max
                    } else if max < 0 {
                        hp * 1000 > t * max
                    } else {
                        hp < 0
                    }
                },
                None => false,
            }
        } else if *k == String::from_str("biome_match") {
            match &c.biome {
                Some(b) => context.biome == *b,
                None => false,
            }
        } else if *k == String::from_str("storm_intensity") {
            match c.min_intensity {
                Some(m) => context.storm_intensity >= (m % 256) as u8,
                None => false,
            }
        } else if *k == String::from_str("turn_multiple") {
            match c.multiple {
                Some(m) => context.turn % ((m % 0x1_0000_0000) as u32) == 0,
                None => false,
            }
        } else if *k == String::from_str("refraction_level") {
            match c.min_level {
                Some(m) => context.refraction_level >= (m % 0x1_0000_0000) as u32,
                None => false,
            }
        } else {
            false
        }
    }

    /// Evaluate a trigger: first a draw in millionths must fall below its
    /// chance, then its condition must hold.
    pub fn evaluate_trigger(trigger: &EventTrigger, context: &EventContext, rng: &mut ChaCha8Rng) -> (b: bool)
        requires
            trigger_wf(*trigger),
        ensures
            b ==> condition_holds(*trigger, *context),
            trigger.probability == 0 ==> !b,
            trigger.probability >= 1_000_000 ==> b == condition_holds(*trigger, *context),
    {
        let draw = gen_range_u32(rng, 0, 1_000_000);
        if draw >= trigger.probability {
            return false;
        }
        Self::trigger_condition(trigger, context)
    }
}

/// Named entries, as plain text keys.
pub open spec fn vars_view<V>(v: Seq<(String, V)>) -> Seq<(Seq<char>, V)> {
    v.map_values(|p: (String, V)| (p.0@, p.1))
}

/// The value of the first entry with the given name.
pub open spec fn entry_of<V>(s: Seq<(Seq<char>, V)>, key: Seq<char>) -> Option<V>
    decreases s.len(),
{
    if s.len() == 0 {
        None
    } else if s[0].0 == key {
        Some(s[0].1)
    } else {
        entry_of(s.drop_first(), key)
    }
}

/// Setting a variable: the first entry with that name takes the value; with
/// no such entry, one is added at the end.
pub open spec fn set_var<V>(vars: Seq<(Seq<char>, V)>, key: Seq<char>, v: V) -> Seq<(Seq<char>, V)>
    decreases vars.len(),
{
    if vars.len() == 0 {
        seq![(key, v)]
    } else if vars[0].0 == key {
        vars.update(0, (key, v))
    } else {
        seq![vars[0]] + set_var(vars.drop_first(), key, v)
    }
}

proof fn lemma_set_var_found<V>(vars: Seq<(Seq<char>, V)>, key: Seq<char>, v: V, i: int)
    requires
        0 <= i < vars.len(),
        vars[i].0 == key,
        forall|j: int| 0 <= j < i ==> (#[trigger] vars[j]).0 != key,
    ensures
        set_var(vars, key, v) == vars.update(i, (key, v)),
    decreases vars.len(),
{
    if i > 0 {
        lemma_set_var_found(vars.drop_first(), key, v, i - 1);
        assert(set_var(vars, key, v) =~= vars.update(i, (key, v)));
    }
}

proof fn lemma_set_var_absent<V>(vars: Seq<(Seq<char>, V)>, key: Seq<char>, v: V)
    requires
        forall|j: int| 0 <= j < vars.len() ==> (#[trigger] vars[j]).0 != key,
    ensures
        set_var(vars, key, v) == vars.push((key, v)),
    decreases vars.len(),
{
    if vars.len() > 0 {
        assert(vars[0].0 != key);
        lemma_set_var_absent(vars.drop_first(), key, v);
        assert(set_var(vars, key, v) =~= vars.push((key, v)));
    }
}

/// Set a variable in place.
pub fn set_variable<V>(vars: &mut Vec<(String, V)>, key: &str, v: V)
    ensures
        vars_view(final(vars)@) == set_var(vars_view(old(vars)@), key@, v),
{
    let ghost vv = vars_view(vars@);
    let k = key.to_owned();
    let mut i: usize = 0;
    while i < vars.len()
        invariant
            i <= vars@.len(),
            k@ == key@,
            vv == vars_view(vars@),
            vars@ == old(vars)@,
            forall|j: int| 0 <= j < i ==> (#[trigger] vars@[j]).0@ != key@,
        decreases vars@.len() - i,
    {
        if vars[i].0 == k {
            let name = vars[i].0.clone();
            vars.set(i, (name, v));
            proof {
                assert forall|j: int| 0 <= j < i implies (#[trigger] vv[j]).0 != key@ by {
                    assert(vv[j].0 == old(vars)@[j].0@);
                }
                lemma_set_var_found(vv, key@, v, i as int);
                assert(vars_view(vars@) =~= vv.update(i as int, (key@, v)));
            }
            return;
        }
        i = i + 1;
    }
    vars.push((key.to_owned(), v));
    proof {
        assert forall|j: int| 0 <= j < vv.len() implies (#[trigger] vv[j]).0 != key@ by {
            assert(vv[j].0 == old(vars)@[j].0@);
        }
        lemma_set_var_absent(vv, key@, v);
        assert(vars_view(vars@) =~= vv.push((key@, v)));
    }
}

/// A signed integer in decimal, with a leading minus when negative.
pub open spec fn signed_decimal(a: int) -> Seq<char> {
    if a < 0 { "-"@ + decimal((-a) as nat) } else { decimal(a as nat) }
}

/// Append a signed integer in decimal.
fn push_signed(out: &mut String, a: i64)
    ensures
        final(out)@ == old(out)@ + signed_decimal(a as int),
{
    if a < 0 {
        out.append("-");
        push_decimal_u128(out, (0i128 - a as i128) as u128);
        proof {
            assert(out@ =~= old(out)@ + signed_decimal(a as int));
        }
    } else {
        push_decimal_u128(out, a as u128);
    }
}

/// The message a consequence reports, if any, for an event named `name`.
pub open spec fn consequence_text(c: EventConsequence, name: Seq<char>) -> Option<Seq<char>> {
    let k = c.consequence_type@;
    if k == "damage_player"@ {
        match c.parameters.amount_signed {
            Some(a) => Some("You take "@ + signed_decimal(a as int) + " damage from "@ + name),
            None => None,
        }
    } else if k == "heal_player"@ {
        match c.parameters.amount_signed {
            Some(a) => Some("You recover "@ + signed_decimal(a as int) + " health from "@ + name),
            None => None,
        }
    } else if k == "add_refraction"@ {
        match c.parameters.amount_unsigned {
            Some(a) => Some("Glass energy courses through you (+"@ + decimal(a as nat) + " Refraction)"@),
            None => None,
        }
    } else if k == "environmental_story"@ {
        match c.parameters.message {
            Some(m) => Some(m@),
            None => None,
        }
    } else {
        None
    }
}

/// The variable a consequence sets, if any.
pub open spec fn consequence_var(c: EventConsequence) -> Option<(Seq<char>, VariableValue)> {
    let k = c.consequence_type@;
    if k == "damage_player"@ {
        match c.parameters.amount_signed {
            Some(a) => Some(("damage_taken"@, VariableValue::Int(a))),
            None => None,
        }
    } else if k == "heal_player"@ {
        match c.parameters.amount_signed {
            Some(a) => Some(("healing_received"@, VariableValue::Int(a))),
            None => None,
        }
    } else if k == "add_refraction"@ {
        match c.parameters.amount_unsigned {
            Some(a) => Some(("refraction_gained"@, VariableValue::UInt(a))),
            None => None,
        }
    } else {
        None
    }
}

/// Messages reported by the consequences, in order.
pub open spec fn messages_of(cs: Seq<EventConsequence>, name: Seq<char>) -> Seq<Seq<char>>
    decreases cs.len(),
{
    if cs.len() == 0 {
        Seq::empty()
    } else {
        let m = messages_of(cs.drop_last(), name);
        match consequence_text(cs.last(), name) {
            Some(t) => m.push(t),
            None => m,
        }
    }
}

/// Variables after the consequences are applied in order.
pub open spec fn vars_after(cs: Seq<EventConsequence>, vars: Seq<(Seq<char>, VariableValue)>) -> Seq<
    (Seq<char>, VariableValue),
>
    decreases cs.len(),
{
    if cs.len() == 0 {
        vars
    } else {
        let v = vars_after(cs.drop_last(), vars);
        match consequence_var(cs.last()) {
            Some((k, x)) => set_var(v, k, x),
            None => v,
        }
    }
}

/// The first event with the given id is at `i` (or none has it, for `None`).
pub open spec fn first_event(events: Seq<DynamicEvent>, id: Seq<char>, r: Option<usize>) -> bool {
    match r {
        Some(i) => i < events.len() && events[i as int].id@ == id && forall|j: int| 0 <= j < i ==> (#[trigger] events[j]).id@ != id,
        None => forall|j: int| 0 <= j < events.len() ==> (#[trigger] events[j]).id@ != id,
    }
}

/// The first chain with the given id is at `i` (or none has it).
pub open spec fn first_chain(chains: Seq<EventChain>, id: Seq<char>, r: Option<usize>) -> bool {
    match r {
        Some(i) => i < chains.len() && chains[i as int].chain_id@ == id && forall|j: int| 0 <= j < i ==> (#[trigger] chains[j]).chain_id@ != id,
        None => forall|j: int| 0 <= j < chains.len() ==> (#[trigger] chains[j]).chain_id@ != id,
    }
}

/// Position of the first event with the given id.
fn find_event(events: &Vec<DynamicEvent>, id: &str) -> (r: Option<usize>)
    ensures
        first_event(events@, id@, r),
{
    let k = id.to_owned();
    let mut i: usize = 0;
    while i < events.len()
        invariant
            i <= events@.len(),
            k@ == id@,
            forall|j: int| 0 <= j < i ==> (#[trigger] events@[j]).id@ != id@,
        decreases events@.len() - i,
    {
        if events[i].id == k {
            return Some(i);
        }
        i = i + 1;
    }
    None
}

/// Position of the first chain with the given id.
fn find_chain(chains: &Vec<EventChain>, id: &str) -> (r: Option<usize>)
    ensures
        first_chain(chains@, id@, r),
{
    let k = id.to_owned();
    let mut i: usize = 0;
    while i < chains.len()
        invariant
            i <= chains@.len(),
            k@ == id@,
            forall|j: int| 0 <= j < i ==> (#[trigger] chains@[j]).chain_id@ != id@,
        decreases chains@.len() - i,
    {
        if chains[i].chain_id == k {
            return Some(i);
        }
        i = i + 1;
    }
    None
}

impl EventSystem {
    /// A system over the given events and chains, with nothing resting.
    pub fn new(events: Vec<DynamicEvent>, chains: Vec<EventChain>) -> (s: Self)
        ensures
            s.events@ == events@,
            s.chains@ == chains@,
            s.active_events@.len() == 0,
            s.event_cooldowns@.len() == 0,
    {
        EventSystem { events, chains, active_events: Vec::new(), event_cooldowns: Vec::new() }
    }

    /// Number of loaded events.
    pub fn event_count(&self) -> (n: usize)
        ensures
            n == self.events@.len(),
    {
        self.events.len()
    }

    /// The event with the given id.
    pub fn get_event(&self, event_id: &str) -> (r: Option<&DynamicEvent>)
        ensures
            exists|i: Option<usize>| first_event(self.events@, event_id@, i) && match i {
                Some(k) => r == Some(&self.events@[k as int]),
                None => r is None,
            },
    {
        let i = find_event(&self.events, event_id);
        match i {
            Some(k) => Some(&self.events[k]),
            None => None,
        }
    }

    /// The chain that the event with the given id leads to.
    pub fn get_event_chains(&self, event_id: &str) -> (r: Option<&EventChain>)
        ensures
            exists|i: Option<usize>| first_event(self.events@, event_id@, i) && match i {
                Some(k) => match self.events@[k as int].chains_to {
                    Some(cid) => exists|c: Option<usize>| first_chain(self.chains@, cid@, c) && match c {
                        Some(ci) => r == Some(&self.chains@[ci as int]),
                        None => r is None,
                    },
                    None => r is None,
                },
                None => r is None,
            },
    {
        let i = find_event(&self.events, event_id);
        match i {
            Some(k) => {
                match &self.events[k].chains_to {
                    Some(cid) => {
                        let c = find_chain(&self.chains, cid.as_str());
                        match c {
                            Some(ci) => Some(&self.chains[ci]),
                            None => None,
                        }
                    },
                    None => None,
                }
            },
            None => None,
        }
    }
}

/// Messages as plain text.
pub open spec fn texts(v: Seq<String>) -> Seq<Seq<char>> {
    v.map_values(|s: String| s@)
}

/// The two contexts agree on everything but the variables.
pub open spec fn same_situation(a: EventContext, b: EventContext) -> bool {
    &&& a.player_hp == b.player_hp
    &&& a.player_max_hp == b.player_max_hp
    &&& a.player_x == b.player_x
    &&& a.player_y == b.player_y
    &&& a.turn == b.turn
    &&& a.biome == b.biome
    &&& a.storm_intensity == b.storm_intensity
    &&& a.refraction_level == b.refraction_level
}

/// Apply one consequence: set its variable and return its message.
fn apply_one(c: &EventConsequence, name: &String, context: &mut EventContext) -> (m: Option<String>)
    ensures
        same_situation(*old(context), *final(context)),
        match m {
            Some(t) => consequence_text(*c, name@) == Some(t@),
            None => consequence_text(*c, name@) is None,
        },
        vars_view(final(context).variables@) == match consequence_var(*c) {
            Some((k, x)) => set_var(vars_view(old(context).variables@), k, x),
            None => vars_view(old(context).variables@),
        },
{
    let k = &c.consequence_type;
    let p = &c.parameters;
    if *k == String::from_str("damage_player") {
        match p.amount_signed {
            Some(a) => {
                set_variable(&mut context.variables, "damage_taken", VariableValue::Int(a));
                let mut msg = String::new();
                msg.append("You take ");
                push_signed(&mut msg, a);
                msg.append(" damage from ");
                msg.append(name.as_str());
                proof {
                    assert(msg@ =~= "You take "@ + signed_decimal(a as int) + " damage from "@ + name@);
                }
                Some(msg)
            },
            None => None,
        }
    } else if *k == String::from_str("heal_player") {
        match p.amount_signed {
            Some(a) => {
                set_variable(&mut context.variables, "healing_received", VariableValue::Int(a));
                let mut msg = String::new();
                msg.append("You recover ");
                push_signed(&mut msg, a);
                msg.append(" health from ");
                msg.append(name.as_str());
                proof {
                    assert(msg@ =~= "You recover "@ + signed_decimal(a as int) + " health from "@ + name@);
                }
                Some(msg)
            },
            None => None,
        }
    } else if *k == String::from_str("add_refraction") {
        match p.amount_unsigned {
            Some(a) => {
                set_variable(&mut context.variables, "refraction_gained", VariableValue::UInt(a));
                let mut msg = String::new();
                msg.append("Glass energy courses through you (+");
                push_decimal_u128(&mut msg, a as u128);
                msg.append(" Refraction)");
                proof {
                    assert(msg@ =~= "Glass energy courses through you (+"@ + decimal(a as nat) + " Refraction)"@);
                }
                Some(msg)
            },
            None => None,
        }
    } else if *k == String::from_str("environmental_story") {
        match &p.message {
            Some(t) => Some(t.clone()),
            None => None,
        }
    } else {
        None
    }
}

impl EventSystem {
    /// Apply the consequences of the event with the given id, in order:
    /// each sets its variable in the context and reports its message. An
    /// unknown id does nothing.
    pub fn apply_consequences(&self, event_id: &str, context: &mut EventContext) -> (messages: Vec<String>)
        ensures
            same_situation(*old(context), *final(context)),
            exists|i: Option<usize>| first_event(self.events@, event_id@, i) && match i {
                Some(k) => texts(messages@) == messages_of(self.events@[k as int].consequences@, self.events@[k as int].name@)
                    && vars_view(final(context).variables@) == vars_after(
                    self.events@[k as int].consequences@,
                    vars_view(old(context).variables@),
                ),
                None => messages@.len() == 0 && final(context).variables@ == old(context).variables@,
            },
    {
        let mut messages: Vec<String> = Vec::new();
        let found = find_event(&self.events, event_id);
        match found {
            Some(k) => {
                let event = &self.events[k];
                let cs = &event.consequences;
                let ghost v0 = vars_view(context.variables@);
                let ghost c0 = *context;
                let mut j: usize = 0;
                while j < cs.len()
                    invariant
                        j <= cs@.len(),
                        same_situation(c0, *context),
                        texts(messages@) == messages_of(cs@.subrange(0, j as int), event.name@),
                        vars_view(context.variables@) == vars_after(cs@.subrange(0, j as int), v0),
                    decreases cs@.len() - j,
                {
                    let ghost before = messages@;
                    let m = apply_one(&cs[j], &event.name, context);
                    proof {
                        assert(cs@.subrange(0, j + 1).drop_last() =~= cs@.subrange(0, j as int));
                        assert(cs@.subrange(0, j + 1).last() == cs@[j as int]);
                    }
                    match m {
                        Some(t) => {
                            messages.push(t);
                            proof {
                                assert(texts(messages@) =~= texts(before).push(t@));
                            }
                        },
                        None => {},
                    }
                    j = j + 1;
                }
                proof {
                    assert(cs@.subrange(0, cs@.len() as int) =~= cs@);
                }
            },
            None => {},
        }
        messages
    }
}

proof fn lemma_entry_of_set<V>(vars: Seq<(Seq<char>, V)>, key: Seq<char>, v: V, other: Seq<char>)
    ensures
        entry_of(set_var(vars, key, v), key) == Some(v),
        other != key ==> entry_of(set_var(vars, key, v), other) == entry_of(vars, other),
    decreases vars.len(),
{
    let s1 = set_var(vars, key, v);
    if vars.len() == 0 {
        assert(s1 == seq![(key, v)]);
        assert(s1.drop_first() =~= Seq::<(Seq<char>, V)>::empty());
        assert(s1[0].0 == key);
        assert(entry_of(s1.drop_first(), other) == None::<V>);
        assert(entry_of(vars, other) == None::<V>);
    } else if vars[0].0 == key {
        assert(s1 == vars.update(0, (key, v)));
        assert(s1.drop_first() =~= vars.drop_first());
        assert(s1[0].0 == key);
        if other != key {
            assert(entry_of(s1, other) == entry_of(s1.drop_first(), other));
            assert(entry_of(vars, other) == entry_of(vars.drop_first(), other));
        }
    } else {
        lemma_entry_of_set(vars.drop_first(), key, v, other);
        let rest = set_var(vars.drop_first(), key, v);
        assert(s1 == seq![vars[0]] + rest);
        assert(s1.drop_first() =~= rest);
        assert(s1[0] == vars[0]);
        if vars[0].0 == other {
            assert(entry_of(s1, other) == Some(vars[0].1));
        } else if other != key {
            assert(entry_of(s1, other) == entry_of(rest, other));
            assert(entry_of(vars, other) == entry_of(vars.drop_first(), other));
        }
        assert(entry_of(s1, key) == entry_of(rest, key));
    }
}

/// Position of the first entry with the given name.
pub fn entry_index<V>(entries: &Vec<(String, V)>, key: &String) -> (r: Option<usize>)
    ensures
        match r {
            Some(i) => i < entries@.len() && entry_of(vars_view(entries@), key@) == Some(entries@[i as int].1),
            None => entry_of(vars_view(entries@), key@) is None,
        },
{
    let ghost vv = vars_view(entries@);
    assert(vv.subrange(0, vv.len() as int) =~= vv);
    let mut i: usize = 0;
    while i < entries.len()
        invariant
            i <= entries@.len(),
            vv == vars_view(entries@),
            entry_of(vv, key@) == entry_of(vv.subrange(i as int, vv.len() as int), key@),
        decreases entries@.len() - i,
    {
        proof {
            let rest = vv.subrange(i as int, vv.len() as int);
            assert(rest.drop_first() =~= vv.subrange(i + 1, vv.len() as int));
            assert(rest[0] == vv[i as int]);
        }
        if entries[i].0 == *key {
            return Some(i);
        }
        i = i + 1;
    }
    proof {
        assert(vv.subrange(i as int, vv.len() as int) =~= Seq::<(Seq<char>, V)>::empty());
    }
    None
}

/// The value of the first entry with the given name.
fn get_entry(entries: &Vec<(String, u32)>, key: &String) -> (r: Option<u32>)
    ensures
        r == entry_of(vars_view(entries@), key@),
{
    let ghost vv = vars_view(entries@);
    assert(vv.subrange(0, vv.len() as int) =~= vv);
    let mut i: usize = 0;
    while i < entries.len()
        invariant
            i <= entries@.len(),
            vv == vars_view(entries@),
            entry_of(vv, key@) == entry_of(vv.subrange(i as int, vv.len() as int), key@),
        decreases entries@.len() - i,
    {
        proof {
            let rest = vv.subrange(i as int, vv.len() as int);
            assert(rest.drop_first() =~= vv.subrange(i + 1, vv.len() as int));
            assert(rest[0] == vv[i as int]);
        }
        if entries[i].0 == *key {
            return Some(entries[i].1);
        }
        i = i + 1;
    }
    proof {
        assert(vv.subrange(i as int, vv.len() as int) =~= Seq::<(Seq<char>, u32)>::empty());
    }
    None
}

/// The event's ids are distinct.
pub open spec fn distinct_ids(events: Seq<DynamicEvent>) -> bool {
    forall|i: int, j: int| 0 <= i < j < events.len() ==> (#[trigger] events[i]).id@ != (#[trigger] events[j]).id@
}

/// The event is not resting at the given turn.
pub open spec fn awake(cooldowns: Seq<(Seq<char>, u32)>, id: Seq<char>, turn: u32) -> bool {
    match entry_of(cooldowns, id) {
        Some(cd) => cd <= turn,
        None => true,
    }
}

/// Every trigger of the event holds in the context, chances aside.
pub open spec fn conditions_met(e: DynamicEvent, c: EventContext) -> bool {
    forall|t: int| 0 <= t < e.triggers@.len() ==> condition_holds(#[trigger] e.triggers@[t], c)
}

/// Every trigger of the event passes its chance draw whatever is drawn.
pub open spec fn certain(e: DynamicEvent) -> bool {
    forall|t: int| 0 <= t < e.triggers@.len() ==> (#[trigger] e.triggers@[t]).probability >= 1_000_000
}

/// Some trigger of the event never passes its chance draw.
pub open spec fn hopeless(e: DynamicEvent) -> bool {
    exists|t: int| 0 <= t < e.triggers@.len() && (#[trigger] e.triggers@[t]).probability == 0
}

/// Evaluate every trigger of an event, stopping at the first that fails:
/// all pass only where every condition holds; a trigger of no chance makes
/// the event fail, and where every chance is certain the event passes
/// exactly when its conditions hold.
fn all_triggers(e: &DynamicEvent, context: &EventContext, rng: &mut ChaCha8Rng) -> (b: bool)
    requires
        forall|t: int| 0 <= t < e.triggers@.len() ==> trigger_wf(#[trigger] e.triggers@[t]),
    ensures
        b ==> conditions_met(*e, *context),
        hopeless(*e) ==> !b,
        certain(*e) ==> b == conditions_met(*e, *context),
{
    let mut t: usize = 0;
    while t < e.triggers.len()
        invariant
            t <= e.triggers@.len(),
            forall|u: int| 0 <= u < e.triggers@.len() ==> trigger_wf(#[trigger] e.triggers@[u]),
            forall|u: int| 0 <= u < t ==> condition_holds(#[trigger] e.triggers@[u], *context),
            forall|u: int| 0 <= u < t ==> (#[trigger] e.triggers@[u]).probability != 0,
        decreases e.triggers@.len() - t,
    {
        if !EventSystem::evaluate_trigger(&e.triggers[t], context, rng) {
            proof {
                if certain(*e) {
                    assert(e.triggers@[t as int].probability >= 1_000_000);
                    assert(!condition_holds(e.triggers@[t as int], *context));
                }
            }
            return false;
        }
        t = t + 1;
    }
    true
}

/// One of the ids in the list is `id`.
pub open spec fn fired_id(tr: Seq<String>, id: Seq<char>) -> bool {
    exists|k: int| 0 <= k < tr.len() && (#[trigger] tr[k])@ == id
}

impl EventSystem {
    /// Check every event that is not resting: one whose triggers all pass
    /// (each drawing its chance) fires, and rests until `turn + cooldown`.
    /// Returns the ids that fired, in event order.
    pub fn check_triggers(&mut self, context: &EventContext, rng: &mut ChaCha8Rng) -> (triggered: Vec<String>)
        requires
            distinct_ids(old(self).events@),
            forall|i: int| 0 <= i < old(self).events@.len() ==> context.turn + (#[trigger] old(self).events@[i]).cooldown_turns
                <= u32::MAX,
            forall|i: int, t: int| 0 <= i < old(self).events@.len() && 0 <= t < old(self).events@[i].triggers@.len()
                ==> trigger_wf(#[trigger] old(self).events@[i].triggers@[t]),
        ensures
            final(self).events@ == old(self).events@,
            final(self).chains@ == old(self).chains@,
            forall|k: int| 0 <= k < triggered@.len() ==> exists|i: int| 0 <= i < old(self).events@.len() && #[trigger] triggered@[k]@
                == old(self).events@[i].id@ && awake(vars_view(old(self).event_cooldowns@), triggered@[k]@, context.turn)
                && conditions_met(old(self).events@[i], *context) && !hopeless(old(self).events@[i]) && entry_of(
                vars_view(final(self).event_cooldowns@),
                triggered@[k]@,
            ) == Some((context.turn + old(self).events@[i].cooldown_turns) as u32),
            forall|i: int| 0 <= i < old(self).events@.len() && awake(vars_view(old(self).event_cooldowns@), (#[trigger] old(self).events@[i]).id@, context.turn)
                && certain(old(self).events@[i]) && conditions_met(old(self).events@[i], *context) ==> fired_id(
                triggered@,
                old(self).events@[i].id@,
            ),
            forall|i: int| 0 <= i < old(self).events@.len() && !fired_id(triggered@, (#[trigger] old(self).events@[i]).id@) ==> entry_of(
                vars_view(final(self).event_cooldowns@),
                old(self).events@[i].id@,
            ) == entry_of(vars_view(old(self).event_cooldowns@), old(self).events@[i].id@),
    {
        let mut triggered: Vec<String> = Vec::new();
        let ghost cd0 = vars_view(self.event_cooldowns@);
        let n = self.events.len();
        let mut i: usize = 0;
        while i < n
            invariant
                n == self.events@.len(),
                i <= n,
                distinct_ids(self.events@),
                forall|j: int| 0 <= j < self.events@.len() ==> context.turn + (#[trigger] self.events@[j]).cooldown_turns <= u32::MAX,
                forall|j: int, t: int| 0 <= j < self.events@.len() && 0 <= t < self.events@[j].triggers@.len()
                    ==> trigger_wf(#[trigger] self.events@[j].triggers@[t]),
                self.events@ == old(self).events@,
                self.chains@ == old(self).chains@,
                cd0 == vars_view(old(self).event_cooldowns@),
                forall|j: int| i <= j < n ==> entry_of(vars_view(self.event_cooldowns@), (#[trigger] self.events@[j]).id@)
                    == entry_of(cd0, self.events@[j].id@),
                forall|k: int| 0 <= k < triggered@.len() ==> exists|j: int| 0 <= j < i && #[trigger] triggered@[k]@
                    == self.events@[j].id@ && awake(cd0, triggered@[k]@, context.turn) && conditions_met(self.events@[j], *context)
                    && !hopeless(self.events@[j]) && entry_of(vars_view(self.event_cooldowns@), triggered@[k]@) == Some(
                    (context.turn + self.events@[j].cooldown_turns) as u32,
                ),
                forall|j: int| 0 <= j < i && awake(cd0, (#[trigger] self.events@[j]).id@, context.turn) && certain(self.events@[j])
                    && conditions_met(self.events@[j], *context) ==> fired_id(triggered@, self.events@[j].id@),
                forall|j: int| 0 <= j < i && !fired_id(triggered@, (#[trigger] self.events@[j]).id@) ==> entry_of(
                    vars_view(self.event_cooldowns@),
                    self.events@[j].id@,
                ) == entry_of(cd0, self.events@[j].id@),
            decreases n - i,
        {
            let id = self.events[i].id.clone();
            let rest = get_entry(&self.event_cooldowns, &id);
            let resting = match rest {
                Some(cd) => cd > context.turn,
                None => false,
            };
            if !resting {
                let fired = all_triggers(&self.events[i], context, rng);
                if fired {
                    let until = context.turn + self.events[i].cooldown_turns;
                    let ghost before = vars_view(self.event_cooldowns@);
                    let ghost tr0 = triggered@;
                    set_variable(&mut self.event_cooldowns, id.as_str(), until);
                    triggered.push(id);
                    proof {
                        assert forall|j: int| i < j < n implies entry_of(vars_view(self.event_cooldowns@), (#[trigger] self.events@[j]).id@)
                            == entry_of(cd0, self.events@[j].id@) by {
                            lemma_entry_of_set(before, self.events@[i as int].id@, until, self.events@[j].id@);
                        }
                        assert forall|k: int| 0 <= k < triggered@.len() implies exists|j: int| 0 <= j < i + 1 && #[trigger] triggered@[k]@
                            == self.events@[j].id@ && awake(cd0, triggered@[k]@, context.turn) && conditions_met(self.events@[j], *context)
                            && !hopeless(self.events@[j]) && entry_of(vars_view(self.event_cooldowns@), triggered@[k]@) == Some(
                            (context.turn + self.events@[j].cooldown_turns) as u32,
                        ) by {
                            lemma_entry_of_set(before, self.events@[i as int].id@, until, triggered@[k]@);
                            if k < tr0.len() {
                                assert(triggered@[k] == tr0[k]);
                                let j = choose|j: int| 0 <= j < i && #[trigger] tr0[k]@ == self.events@[j].id@ && awake(cd0, tr0[k]@, context.turn)
                                    && conditions_met(self.events@[j], *context) && !hopeless(self.events@[j]) && entry_of(before, tr0[k]@) == Some(
                                    (context.turn + self.events@[j].cooldown_turns) as u32,
                                );
                                assert(self.events@[j].id@ != self.events@[i as int].id@);
                            } else {
                                assert(triggered@[k] == id);
                                assert(triggered@[k]@ == self.events@[i as int].id@);
                            }
                        }
                        assert(triggered@[tr0.len() as int]@ == self.events@[i as int].id@);
                        assert forall|j: int| 0 <= j < i + 1 && awake(cd0, (#[trigger] self.events@[j]).id@, context.turn) && certain(
                            self.events@[j],
                        ) && conditions_met(self.events@[j], *context) implies fired_id(triggered@, self.events@[j].id@) by {
                            if j < i {
                                let k = choose|k: int| 0 <= k < tr0.len() && (#[trigger] tr0[k])@ == self.events@[j].id@;
                                assert(triggered@[k] == tr0[k]);
                            }
                        }
                        assert forall|j: int| 0 <= j < i + 1 && !fired_id(triggered@, (#[trigger] self.events@[j]).id@) implies entry_of(
                            vars_view(self.event_cooldowns@),
                            self.events@[j].id@,
                        ) == entry_of(cd0, self.events@[j].id@) by {
                            if j < i {
                                if fired_id(tr0, self.events@[j].id@) {
                                    let k = choose|k: int| 0 <= k < tr0.len() && (#[trigger] tr0[k])@ == self.events@[j].id@;
                                    assert(triggered@[k] == tr0[k]);
                                }
                                assert(self.events@[j].id@ != self.events@[i as int].id@);
                                lemma_entry_of_set(before, self.events@[i as int].id@, until, self.events@[j].id@);
                            }
                        }
                    }
                }
            }
            i = i + 1;
        }
        triggered
    }
}

} // verus!
