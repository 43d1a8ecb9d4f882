//! Generation configurations: the passes and their checks before use.

use vstd::prelude::*;
use crate::algorithm::GenerationError;

verus! {

/// One configured pass.
#[derive(Debug)]
pub struct GenerationPassConfig {
    pub id: String,
    pub algorithm: String,
    pub parameters: Vec<(String, serde_json::Value)>,
    pub dependencies: Vec<String>,
    pub condition: Option<String>,
    pub input_layers: Vec<String>,
    pub output_layers: Vec<String>,
}

/// The configured passes and free-form metadata.
#[derive(Debug)]
pub struct GenerationConfiguration {
    pub passes: Vec<GenerationPassConfig>,
    pub metadata: Vec<(String, serde_json::Value)>,
}

/// Loads and checks configurations.
pub struct ConfigurationLoader;

/// Pass `i` repeats the id of an earlier pass.
pub open spec fn repeats_id(p: Seq<GenerationPassConfig>, i: int) -> bool {
    exists|j: int| 0 <= j < i && (#[trigger] p[j]).id@ == p[i].id@
}

/// Some pass has the given id.
pub open spec fn names_pass(p: Seq<GenerationPassConfig>, id: Seq<char>) -> bool {
    exists|j: int| 0 <= j < p.len() && (#[trigger] p[j]).id@ == id
}

/// Dependency `e` of pass `i` names no pass.
pub open spec fn dangling(p: Seq<GenerationPassConfig>, i: int, e: int) -> bool {
    !names_pass(p, p[i].dependencies@[e]@)
}

/// Pass `i` lists itself among its dependencies.
pub open spec fn self_dependent(p: Seq<GenerationPassConfig>, i: int) -> bool {
    exists|e: int| 0 <= e < p[i].dependencies@.len() && (#[trigger] p[i].dependencies@[e])@ == p[i].id@
}

/// The result is an invalid-parameters error with the given message.
pub open spec fn invalid_with(r: Result<(), GenerationError>, msg: Seq<char>) -> bool {
    r matches Err(GenerationError::InvalidParameters(m)) && m@ == msg
}

/// What checking a configuration gives: the first repeated id; else the first
/// dependency, in pass order, that names no pass; else the first pass that
/// depends on itself; else none.
pub open spec fn config_outcome(p: Seq<GenerationPassConfig>, r: Result<(), GenerationError>) -> bool {
    if exists|i: int| 0 <= i < p.len() && #[trigger] repeats_id(p, i) {
        exists|i: int|
            0 <= i < p.len() && #[trigger] repeats_id(p, i) && (forall|j: int| 0 <= j < i ==> !#[trigger] repeats_id(p, j))
                && invalid_with(r, "Duplicate pass ID: "@ + p[i].id@)
    } else if exists|i: int, e: int| 0 <= i < p.len() && 0 <= e < p[i].dependencies@.len() && #[trigger] dangling(p, i, e) {
        exists|i: int, e: int|
            0 <= i < p.len() && 0 <= e < p[i].dependencies@.len() && #[trigger] dangling(p, i, e) && (forall|i2: int, e2: int|
                0 <= i2 < p.len() && 0 <= e2 < p[i2].dependencies@.len() && (i2 < i || (i2 == i && e2 < e)) ==> !#[trigger] dangling(
                    p,
                    i2,
                    e2,
                )) && invalid_with(r, "Pass '"@ + p[i].id@ + "' depends on non-existent pass '"@ + p[i].dependencies@[e]@ + "'"@)
    } else if exists|i: int| 0 <= i < p.len() && #[trigger] self_dependent(p, i) {
        exists|i: int|
            0 <= i < p.len() && #[trigger] self_dependent(p, i) && (forall|j: int| 0 <= j < i ==> !#[trigger] self_dependent(p, j))
                && invalid_with(r, "Pass '"@ + p[i].id@ + "' cannot depend on itself"@)
    } else {
        r is Ok
    }
}

/// Whether some pass has the given id.
fn has_id(p: &Vec<GenerationPassConfig>, id: &String, upto: usize) -> (b: bool)
    requires
        upto <= p@.len(),
    ensures
        b == exists|j: int| 0 <= j < upto && (#[trigger] p@[j]).id@ == id@,
{
    let mut j: usize = 0;
    while j < upto
        invariant
            j <= upto <= p@.len(),
            forall|k: int| 0 <= k < j ==> (#[trigger] p@[k]).id@ != id@,
        decreases upto - j,
    {
        if p[j].id == *id {
            return true;
        }
        j = j + 1;
    }
    false
}

impl ConfigurationLoader {
    /// Check a configuration: ids must be unique, dependencies must name
    /// passes, and no pass may depend on itself.
    pub fn validate_configuration(config: &GenerationConfiguration) -> (r: Result<(), GenerationError>)
        ensures
            config_outcome(config.passes@, r),
    {
        let p = &config.passes;
        let ghost ps = p@;
        let n = p.len();
        let mut i: usize = 0;
        while i < n
            invariant
                n == ps.len(),
                p@ == ps,
                config.passes@ == ps,
                i <= n,
                forall|j: int| 0 <= j < i ==> !#[trigger] repeats_id(ps, j),
            decreases n - i,
        {
            if has_id(p, &p[i].id, i) {
                let mut m = String::from_str("Duplicate pass ID: ");
                m.append(p[i].id.as_str());
                let r = Err(GenerationError::InvalidParameters(m));
                assert(repeats_id(ps, i as int));
                assert(invalid_with(r, "Duplicate pass ID: "@ + ps[i as int].id@));
                assert(exists|k: int| 0 <= k < ps.len() && #[trigger] repeats_id(ps, k));
                return r;
            }
            i = i + 1;
        }
        assert(!exists|i: int| 0 <= i < ps.len() && #[trigger] repeats_id(ps, i));
        let mut i: usize = 0;
        while i < n
            invariant
                n == ps.len(),
                p@ == ps,
                config.passes@ == ps,
                i <= n,
                !exists|k: int| 0 <= k < ps.len() && #[trigger] repeats_id(ps, k),
                forall|i2: int, e2: int| 0 <= i2 < i && 0 <= e2 < ps[i2].dependencies@.len() ==> !#[trigger] dangling(ps, i2, e2),
            decreases n - i,
        {
            let deps = &p[i].dependencies;
            let mut e: usize = 0;
            while e < deps.len()
                invariant
                    n == ps.len(),
                    p@ == ps,
                    config.passes@ == ps,
                    i < n,
                    deps@ == ps[i as int].dependencies@,
                    e <= deps@.len(),
                    !exists|k: int| 0 <= k < ps.len() && #[trigger] repeats_id(ps, k),
                    forall|i2: int, e2: int| 0 <= i2 < ps.len() && 0 <= e2 < ps[i2].dependencies@.len() && (i2 < i || (i2 == i && e2 < e))
                        ==> !#[trigger] dangling(ps, i2, e2),
                decreases deps@.len() - e,
            {
                if !has_id(p, &deps[e], n) {
                    let mut m = String::from_str("Pass '");
                    m.append(p[i].id.as_str());
                    m.append("' depends on non-existent pass '");
                    m.append(deps[e].as_str());
                    m.append("'");
                    let r = Err(GenerationError::InvalidParameters(m));
                    assert(dangling(ps, i as int, e as int));
                    assert(invalid_with(r, "Pass '"@ + ps[i as int].id@ + "' depends on non-existent pass '"@ + ps[i as int].dependencies@[e as int]@ + "'"@));
                    return r;
                }
                e = e + 1;
            }
            i = i + 1;
        }
        assert(!exists|i: int, e: int| 0 <= i < ps.len() && 0 <= e < ps[i].dependencies@.len() && #[trigger] dangling(ps, i, e));
        let mut i: usize = 0;
        while i < n
            invariant
                n == ps.len(),
                p@ == ps,
                config.passes@ == ps,
                i <= n,
                !exists|k: int| 0 <= k < ps.len() && #[trigger] repeats_id(ps, k),
                !exists|k: int, e: int| 0 <= k < ps.len() && 0 <= e < ps[k].dependencies@.len() && #[trigger] dangling(ps, k, e),
                forall|j: int| 0 <= j < i ==> !#[trigger] self_dependent(ps, j),
            decreases n - i,
        {
            let deps = &p[i].dependencies;
            let mut e: usize = 0;
            while e < deps.len()
                invariant
                    n == ps.len(),
                    p@ == ps,
                    config.passes@ == ps,
                    i < n,
                    deps@ == ps[i as int].dependencies@,
                    e <= deps@.len(),
                    !exists|k: int| 0 <= k < ps.len() && #[trigger] repeats_id(ps, k),
                    !exists|k: int, e3: int| 0 <= k < ps.len() && 0 <= e3 < ps[k].dependencies@.len() && #[trigger] dangling(ps, k, e3),
                    forall|j: int| 0 <= j < i ==> !#[trigger] self_dependent(ps, j),
                    forall|f: int| 0 <= f < e ==> (#[trigger] deps@[f])@ != ps[i as int].id@,
                decreases deps@.len() - e,
            {
                if deps[e] == p[i].id {
                    let mut m = String::from_str("Pass '");
                    m.append(p[i].id.as_str());
                    m.append("' cannot depend on itself");
                    let r = Err(GenerationError::InvalidParameters(m));
                    assert(self_dependent(ps, i as int));
                    assert(invalid_with(r, "Pass '"@ + ps[i as int].id@ + "' cannot depend on itself"@));
                    return r;
                }
                e = e + 1;
            }
            i = i + 1;
        }
        Ok(())
    }
}

} // verus!
