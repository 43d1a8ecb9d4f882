//! Map features known by id, each with the handler that materialises it.

use vstd::prelude::*;

verus! {

#[verifier::external_type_specification]
#[verifier::external_body]
pub struct ExJsonValue(serde_json::Value);

/// A kind of map feature: its id, the handler that places it and the
/// handler's parameters, carried as they were read.
#[derive(Debug)]
pub struct FeatureDef {
    pub id: String,
    pub handler: String,
    pub params: serde_json::Value,
}

/// The feature definitions in load order; a later definition with an id
/// already seen replaces the earlier one.
pub struct FeatureRegistry {
    pub defs: Vec<FeatureDef>,
}

/// Position of the last definition with the given id.
pub open spec fn last_feature_with(defs: Seq<FeatureDef>, id: Seq<char>) -> Option<int>
    decreases defs.len(),
{
    if defs.len() == 0 {
        None
    } else if defs.last().id@ == id {
        Some(defs.len() - 1)
    } else {
        last_feature_with(defs.drop_last(), id)
    }
}

proof fn lemma_last_feature_in_range(defs: Seq<FeatureDef>, id: Seq<char>)
    ensures
        last_feature_with(defs, id) matches Some(i) ==> 0 <= i < defs.len() && defs[i].id@ == id,
        last_feature_with(defs, id) is None ==> forall|j: int| 0 <= j < defs.len() ==> defs[j].id@ != id,
    decreases defs.len(),
{
    if defs.len() > 0 {
        let rest = defs.drop_last();
        lemma_last_feature_in_range(rest, id);
        assert forall|j: int| 0 <= j < rest.len() implies rest[j] == defs[j] by {}
    }
}

/// The definition registered under `id`.
pub fn get_feature_def<'a>(registry: &'a FeatureRegistry, id: &str) -> (r: Option<&'a FeatureDef>)
    ensures
        match last_feature_with(registry.defs@, id@) {
            Some(i) => r == Some(&registry.defs@[i]),
            None => r is None,
        },
{
    let key = String::from_str(id);
    let mut i = registry.defs.len();
    assert(registry.defs@.subrange(0, i as int) =~= registry.defs@);
    while i > 0
        invariant
            i <= registry.defs@.len(),
            key@ == id@,
            last_feature_with(registry.defs@, id@) == last_feature_with(registry.defs@.subrange(0, i as int), id@),
        decreases i,
    {
        let ghost prefix = registry.defs@.subrange(0, i as int);
        if registry.defs[i - 1].id == key {
            assert(prefix.last() == registry.defs@[i - 1]);
            return Some(&registry.defs[i - 1]);
        }
        assert(prefix.drop_last() =~= registry.defs@.subrange(0, i - 1));
        i = i - 1;
    }
    None
}

/// Whether a feature with this id is registered.
pub fn has_feature(registry: &FeatureRegistry, id: &str) -> (b: bool)
    ensures
        b == exists|j: int| 0 <= j < registry.defs@.len() && (#[trigger] registry.defs@[j]).id@ == id@,
{
    proof {
        lemma_last_feature_in_range(registry.defs@, id@);
    }
    get_feature_def(registry, id).is_some()
}

} // verus!
