//! Things on the map the player can use and examine: levers, doors,
//! pressure plates.

use vstd::prelude::*;
use crate::item::{lists, distinct_strs, contains_str};
use crate::text::{replaced, replace_all};

verus! {

/// What the player is told on using or examining an interactable.
#[derive(Debug, Clone)]
pub struct InteractableMessages {
    pub interact: String,
    /// May hold `{state}`, which is replaced by the current state's name.
    pub examine: String,
}

/// Everything the game knows about a kind of interactable.
#[derive(Debug, Clone)]
pub struct InteractableDef {
    pub id: String,
    pub name: String,
    pub glyph: char,
    pub description: String,
    /// "toggle" cycles through the states, "press" moves to the second.
    pub interaction_type: String,
    pub states: Vec<String>,
    pub messages: InteractableMessages,
}

/// The interactable definitions, in load order; a later definition with an
/// id already seen replaces the earlier one.
pub struct InteractableRegistry {
    pub defs: Vec<InteractableDef>,
}

/// An interactable placed on the map, with the index of its state.
#[derive(Debug, Clone)]
pub struct Interactable {
    pub id: String,
    pub x: i32,
    pub y: i32,
    pub current_state: usize,
}

/// Position of the last definition with the given id.
pub open spec fn last_interactable_with(defs: Seq<InteractableDef>, id: Seq<char>) -> Option<int>
    decreases defs.len(),
{
    if defs.len() == 0 {
        None
    } else if defs.last().id@ == id {
        Some(defs.len() - 1)
    } else {
        last_interactable_with(defs.drop_last(), id)
    }
}

/// The definition registered under `id`.
pub open spec fn interactable_def_of(r: &InteractableRegistry, id: Seq<char>) -> Option<InteractableDef> {
    match last_interactable_with(r.defs@, id) {
        Some(i) => Some(r.defs@[i]),
        None => None,
    }
}

/// One of the first `n` definitions has id `s`.
pub open spec fn defines_interactable(defs: Seq<InteractableDef>, n: int, s: Seq<char>) -> bool {
    exists|k: int| 0 <= k < n && (#[trigger] defs[k]).id@ == s
}

/// The definition registered under `id`.
pub fn get_interactable_def<'a>(registry: &'a InteractableRegistry, id: &str) -> (r: Option<&'a InteractableDef>)
    ensures
        match last_interactable_with(registry.defs@, id@) {
            Some(i) => r == Some(&registry.defs@[i]),
            None => r is None,
        },
{
    let key = String::from_str(id);
    let mut i = registry.defs.len();
    assert(registry.defs@.subrange(0, i as int) =~= registry.defs@);
    while i > 0
        invariant
            i <= registry.defs@.len(),
            key@ == id@,
            last_interactable_with(registry.defs@, id@) == last_interactable_with(registry.defs@.subrange(0, i as int), id@),
        decreases i,
    {
        let ghost prefix = registry.defs@.subrange(0, i as int);
        if registry.defs[i - 1].id == key {
            assert(prefix.last() == registry.defs@[i - 1]);
            return Some(&registry.defs[i - 1]);
        }
        proof {
            assert(prefix.drop_last() =~= registry.defs@.subrange(0, i - 1));
        }
        i = i - 1;
    }
    None
}

/// The registered interactable ids, each once.
pub fn all_interactable_ids(registry: &InteractableRegistry) -> (ids: Vec<String>)
    ensures
        distinct_strs(ids@),
        forall|i: int| 0 <= i < registry.defs@.len() ==> lists(ids@, (#[trigger] registry.defs@[i]).id@),
        forall|j: int|
            0 <= j < ids@.len() ==> defines_interactable(registry.defs@, registry.defs@.len() as int, (#[trigger] ids@[j])@),
{
    let mut ids: Vec<String> = Vec::new();
    let mut i: usize = 0;
    while i < registry.defs.len()
        invariant
            i <= registry.defs@.len(),
            distinct_strs(ids@),
            forall|k: int| 0 <= k < i ==> lists(ids@, (#[trigger] registry.defs@[k]).id@),
            forall|j: int| 0 <= j < ids@.len() ==> defines_interactable(registry.defs@, i as int, (#[trigger] ids@[j])@),
        decreases registry.defs@.len() - i,
    {
        let ghost before = ids@;
        let present = contains_str(&ids, &registry.defs[i].id);
        if !present {
            ids.push(registry.defs[i].id.clone());
            proof {
                let n = before.len() as int;
                assert(ids@[n]@ == registry.defs@[i as int].id@);
                assert forall|a: int, b: int| 0 <= a < b < ids@.len() implies (#[trigger] ids@[a])@ != (#[trigger] ids@[b])@ by {
                    assert(ids@[a] == before[a]);
                    if b < n {
                        assert(ids@[b] == before[b]);
                    }
                }
                assert forall|k: int| 0 <= k < i + 1 implies lists(ids@, (#[trigger] registry.defs@[k]).id@) by {
                    if k < i {
                        let j2 = choose|j2: int| 0 <= j2 < before.len() && (#[trigger] before[j2])@ == registry.defs@[k].id@;
                        assert(ids@[j2] == before[j2]);
                    } else {
                        assert(ids@[n]@ == registry.defs@[k].id@);
                    }
                }
                assert forall|j2: int| 0 <= j2 < ids@.len() implies defines_interactable(registry.defs@, i + 1, (#[trigger] ids@[j2])@) by {
                    if j2 < n {
                        assert(ids@[j2] == before[j2]);
                        assert(defines_interactable(registry.defs@, i as int, before[j2]@));
                        let k = choose|k: int| 0 <= k < i && (#[trigger] registry.defs@[k]).id@ == before[j2]@;
                        assert(registry.defs@[k].id@ == ids@[j2]@);
                    } else {
                        assert(registry.defs@[i as int].id@ == ids@[j2]@);
                    }
                }
            }
        } else {
            proof {
                assert forall|j2: int| 0 <= j2 < ids@.len() implies defines_interactable(registry.defs@, i + 1, (#[trigger] ids@[j2])@) by {
                    assert(defines_interactable(registry.defs@, i as int, ids@[j2]@));
                    let k = choose|k: int| 0 <= k < i && (#[trigger] registry.defs@[k]).id@ == ids@[j2]@;
                    assert(registry.defs@[k].id@ == ids@[j2]@);
                }
            }
        }
        i = i + 1;
    }
    ids
}

/// The state an interaction of the given kind moves to from `state`.
pub open spec fn next_state(kind: Seq<char>, state: int, n_states: int) -> int {
    if kind == "toggle"@ {
        (state + 1) % n_states
    } else if kind == "press"@ {
        1
    } else {
        state
    }
}

/// The name of state `i`, or "unknown" past the last state.
pub open spec fn state_name(states: Seq<String>, i: int) -> Seq<char> {
    if 0 <= i < states.len() { states[i]@ } else { "unknown"@ }
}

impl Interactable {
    /// An interactable in its first state.
    pub fn new(id: String, x: i32, y: i32) -> (it: Self)
        ensures
            it.id == id,
            it.x == x,
            it.y == y,
            it.current_state == 0,
    {
        Self { id, x, y, current_state: 0 }
    }

    /// The interactable's definition.
    pub fn def<'a>(&self, registry: &'a InteractableRegistry) -> (r: Option<&'a InteractableDef>)
        ensures
            match last_interactable_with(registry.defs@, self.id@) {
                Some(i) => r == Some(&registry.defs@[i]),
                None => r is None,
            },
    {
        get_interactable_def(registry, self.id.as_str())
    }

    /// Use the interactable: a toggle moves to the next state, wrapping
    /// round; a press moves to the second state. Returns the use message,
    /// or `None` for an unknown interactable, which is left as it was.
    pub fn interact(&mut self, registry: &InteractableRegistry) -> (r: Option<String>)
        requires
            interactable_def_of(registry, old(self).id@) matches Some(d) ==> (d.interaction_type@ == "toggle"@
                ==> d.states@.len() > 0 && old(self).current_state < usize::MAX),
        ensures
            final(self).id == old(self).id,
            final(self).x == old(self).x,
            final(self).y == old(self).y,
            match interactable_def_of(registry, old(self).id@) {
                Some(d) => {
                    &&& r matches Some(m) && m@ == d.messages.interact@
                    &&& final(self).current_state == next_state(
                        d.interaction_type@,
                        old(self).current_state as int,
                        d.states@.len() as int,
                    )
                },
                None => r is None && final(self).current_state == old(self).current_state,
            },
    {
        match self.def(registry) {
            Some(def) => {
                let toggle = String::from_str("toggle");
                let press = String::from_str("press");
                if def.interaction_type == toggle {
                    self.current_state = (self.current_state + 1) % def.states.len();
                } else if def.interaction_type == press {
                    self.current_state = 1;
                }
                Some(def.messages.interact.clone())
            },
            None => None,
        }
    }

    /// The examine message with `{state}` replaced by the current state's
    /// name; `None` for an unknown interactable.
    pub fn examine(&self, registry: &InteractableRegistry) -> (r: Option<String>)
        ensures
            match interactable_def_of(registry, self.id@) {
                Some(d) => r matches Some(m) && m@ == replaced(
                    d.messages.examine@,
                    "{state}"@,
                    state_name(d.states@, self.current_state as int),
                ),
                None => r is None,
            },
    {
        match self.def(registry) {
            Some(def) => {
                let unknown = String::from_str("unknown");
                let name: &String = if self.current_state < def.states.len() {
                    &def.states[self.current_state]
                } else {
                    &unknown
                };
                let pat = "{state}";
                proof {
                    reveal_strlit("{state}");
                }
                Some(replace_all(def.messages.examine.as_str(), pat, name.as_str()))
            },
            None => None,
        }
    }

    /// The definition's glyph; `?` for an unknown interactable.
    pub fn glyph(&self, registry: &InteractableRegistry) -> (c: char)
        ensures
            c == match interactable_def_of(registry, self.id@) {
                Some(d) => d.glyph,
                None => '?',
            },
    {
        match self.def(registry) {
            Some(d) => d.glyph,
            None => '?',
        }
    }

    /// The definition's name; "Unknown" for an unknown interactable.
    pub fn name(&self, registry: &InteractableRegistry) -> (s: String)
        ensures
            s@ == match interactable_def_of(registry, self.id@) {
                Some(d) => d.name@,
                None => "Unknown"@,
            },
    {
        match self.def(registry) {
            Some(d) => d.name.clone(),
            None => String::from_str("Unknown"),
        }
    }
}

} // verus!
