//! Generation passes and the order they run in: a pass runs after the passes
//! it depends on, found by a depth-first walk that refuses cycles and
//! unknown dependencies.

use vstd::prelude::*;
use rand_chacha::ChaCha8Rng;
use crate::map::TileMap;

verus! {

/// The kind of work a pass does.
#[derive(Debug, Clone, Copy, PartialEq, Eq)]
pub enum PassType {
    Terrain,
    Features,
    Entities,
    Narrative,
}

/// One generation pass and the ids of the passes it depends on.
#[derive(Debug)]
pub struct GenerationPass {
    pub id: String,
    pub pass_type: PassType,
    pub config: serde_json::Value,
    pub dependencies: Vec<String>,
}

/// The configured passes.
#[derive(Debug)]
pub struct GenerationConfig {
    pub passes: Vec<GenerationPass>,
}

/// What the passes work on.
pub struct GenerationContext {
    pub map: TileMap,
    pub rng: ChaCha8Rng,
    pub metadata: Vec<(String, serde_json::Value)>,
}

/// Runs passes in dependency order.
pub struct GenerationPipeline {
    pub config: GenerationConfig,
}

/// `i` is the first pass with its id.
pub open spec fn is_canon(passes: Seq<GenerationPass>, i: int) -> bool {
    0 <= i < passes.len() && forall|j: int| 0 <= j < i ==> (#[trigger] passes[j]).id@ != passes[i].id@
}

/// Some pass has the given id.
pub open spec fn has_pass(passes: Seq<GenerationPass>, id: Seq<char>) -> bool {
    exists|j: int| 0 <= j < passes.len() && (#[trigger] passes[j]).id@ == id
}

/// Some pass before position `k` of the order has the given id.
pub open spec fn placed_before(passes: Seq<GenerationPass>, order: Seq<usize>, k: int, id: Seq<char>) -> bool {
    exists|m: int| 0 <= m < k && (#[trigger] passes[order[m] as int]).id@ == id
}

/// A valid order: positions of passes, none twice, each the first pass with
/// its id, and every dependency of a pass named by a pass placed before it.
pub open spec fn valid_order(passes: Seq<GenerationPass>, order: Seq<usize>) -> bool {
    &&& order.no_duplicates()
    &&& forall|k: int| 0 <= k < order.len() ==> is_canon(passes, #[trigger] order[k] as int)
    &&& forall|k: int, e: int|
        0 <= k < order.len() && 0 <= e < passes[order[k] as int].dependencies@.len() ==> placed_before(
            passes,
            order,
            k,
            (#[trigger] passes[order[k] as int].dependencies@[e])@,
        )
}

/// Some valid order holds every first-of-id pass: each pass can run after
/// its dependencies, every dependency names a pass, and none depends on
/// itself through others.
pub open spec fn orderable(passes: Seq<GenerationPass>) -> bool {
    exists|order: Seq<usize>| #[trigger] valid_order(passes, order) && forall|i: int| is_canon(passes, i) ==> order.contains(i as usize)
}

/// The order holds every first-of-id pass and runs each after its
/// dependencies.
pub open spec fn full_order(passes: Seq<GenerationPass>, order: Seq<usize>) -> bool {
    valid_order(passes, order) && forall|i: int| is_canon(passes, i) ==> order.contains(i as usize)
}

/// Where the order places a pass.
pub open spec fn rank(order: Seq<usize>, j: usize) -> int {
    choose|m: int| 0 <= m < order.len() && order[m] == j
}

proof fn lemma_rank(order: Seq<usize>, m: int)
    requires
        order.no_duplicates(),
        0 <= m < order.len(),
    ensures
        rank(order, order[m]) == m,
{
    let r = rank(order, order[m]);
    assert(0 <= r < order.len() && order[r] == order[m]);
}

/// In a full order, the first pass with a dependency's id comes before the
/// pass that depends on it.
proof fn lemma_dep_ranked(passes: Seq<GenerationPass>, w: Seq<usize>, c: usize, f: int, d: usize)
    requires
        full_order(passes, w),
        is_canon(passes, c as int),
        0 <= f < passes[c as int].dependencies@.len(),
        is_canon(passes, d as int),
        passes[d as int].id@ == passes[c as int].dependencies@[f]@,
    ensures
        rank(w, d) < rank(w, c),
        w.contains(d),
{
    assert(w.contains(c));
    let k = choose|k: int| 0 <= k < w.len() && w[k] == c;
    lemma_rank(w, k);
    assert(passes[w[k] as int] == passes[c as int]);
    assert(placed_before(passes, w, k, passes[w[k] as int].dependencies@[f]@));
    let m = choose|m: int| 0 <= m < k && (#[trigger] passes[w[m] as int]).id@ == passes[c as int].dependencies@[f]@;
    assert(is_canon(passes, w[m] as int));
    assert(w[m] == d);
    lemma_rank(w, m);
}

/// Number of unvisited marks.
pub open spec fn count_zero(s: Seq<u8>) -> nat
    decreases s.len(),
{
    if s.len() == 0 {
        0
    } else {
        count_zero(s.drop_last()) + if s.last() == 0 { 1nat } else { 0nat }
    }
}

proof fn lemma_count_zero_mark(s: Seq<u8>, i: int, v: u8)
    requires
        0 <= i < s.len(),
        s[i] == 0,
        v != 0,
    ensures
        count_zero(s.update(i, v)) + 1 == count_zero(s),
    decreases s.len(),
{
    let u = s.update(i, v);
    if i == s.len() - 1 {
        assert(u.drop_last() =~= s.drop_last());
    } else {
        lemma_count_zero_mark(s.drop_last(), i, v);
        assert(u.drop_last() =~= s.drop_last().update(i, v));
    }
}

proof fn lemma_count_zero_keep(s: Seq<u8>, i: int, v: u8)
    requires
        0 <= i < s.len(),
        s[i] != 0,
        v != 0,
    ensures
        count_zero(s.update(i, v)) == count_zero(s),
    decreases s.len(),
{
    let u = s.update(i, v);
    if i == s.len() - 1 {
        assert(u.drop_last() =~= s.drop_last());
    } else {
        lemma_count_zero_keep(s.drop_last(), i, v);
        assert(u.drop_last() =~= s.drop_last().update(i, v));
    }
}

proof fn lemma_count_zero_mono(s0: Seq<u8>, s1: Seq<u8>)
    requires
        s0.len() == s1.len(),
        forall|j: int| 0 <= j < s1.len() && #[trigger] s1[j] == 0 ==> s0[j] == 0,
    ensures
        count_zero(s1) <= count_zero(s0),
    decreases s0.len(),
{
    if s0.len() > 0 {
        assert forall|j: int| 0 <= j < s1.drop_last().len() && #[trigger] s1.drop_last()[j] == 0 implies s0.drop_last()[j] == 0 by {
            assert(s1.drop_last()[j] == s1[j]);
        }
        lemma_count_zero_mono(s0.drop_last(), s1.drop_last());
    }
}

/// An order that extends another keeps what the other placed.
proof fn lemma_placed_extends(passes: Seq<GenerationPass>, o1: Seq<usize>, o2: Seq<usize>, k: int, id: Seq<char>)
    requires
        o1 == o2.subrange(0, o1.len() as int),
        0 <= k <= o1.len(),
        o1.len() <= o2.len(),
        placed_before(passes, o1, k, id),
    ensures
        placed_before(passes, o2, k, id),
{
    let m = choose|m: int| 0 <= m < k && (#[trigger] passes[o1[m] as int]).id@ == id;
    assert(o2[m] == o1[m]);
}

/// The walk's bookkeeping: a mark per pass (0 unvisited, 1 on the current
/// path, 2 done), only first-of-id passes marked, done passes exactly those in
/// the order so far, and the order valid.
pub open spec fn walk_inv(passes: Seq<GenerationPass>, state: Seq<u8>, order: Seq<usize>) -> bool {
    &&& state.len() == passes.len()
    &&& forall|j: int| 0 <= j < state.len() ==> #[trigger] state[j] <= 2 && (state[j] != 0 ==> is_canon(passes, j))
    &&& forall|k: int| 0 <= k < order.len() ==> (#[trigger] order[k]) < passes.len()
    &&& forall|j: int| 0 <= j < state.len() ==> (#[trigger] state[j] == 2 <==> order.contains(j as usize))
    &&& valid_order(passes, order)
}

/// How the marks change over a successful visit: done passes stay done, the
/// passes on the path stay on it, and nothing new is left on it.
pub open spec fn marks_grow(s0: Seq<u8>, s1: Seq<u8>) -> bool {
    &&& s1.len() == s0.len()
    &&& forall|j: int| 0 <= j < s0.len() && s0[j] == 2 ==> #[trigger] s1[j] == 2
    &&& forall|j: int| 0 <= j < s0.len() ==> (#[trigger] s1[j] == 1 <==> s0[j] == 1)
}

/// A visit that failed reports a cycle or a missing dependency.
pub open spec fn walk_error(passes: Seq<GenerationPass>, e: Seq<char>) -> bool {
    ||| exists|j: int| 0 <= j < passes.len() && e == "Circular dependency detected involving pass: "@ + (#[trigger] passes[j]).id@
    ||| exists|j: int, d: int|
        0 <= j < passes.len() && 0 <= d < passes[j].dependencies@.len() && e == "Dependency not found: "@
            + (#[trigger] passes[j].dependencies@[d])@
}

/// The first pass with the given id.
fn find_pass(passes: &Vec<GenerationPass>, id: &String) -> (r: Option<usize>)
    ensures
        match r {
            Some(i) => is_canon(passes@, i as int) && passes@[i as int].id@ == id@,
            None => !has_pass(passes@, id@),
        },
{
    let mut i: usize = 0;
    while i < passes.len()
        invariant
            i <= passes@.len(),
            forall|j: int| 0 <= j < i ==> (#[trigger] passes@[j]).id@ != id@,
        decreases passes@.len() - i,
    {
        if passes[i].id == *id {
            return Some(i);
        }
        i = i + 1;
    }
    None
}

/// `prefix` then more text.
fn message(prefix: &str, tail: &String) -> (m: String)
    ensures
        m@ == prefix@ + tail@,
{
    let mut m = String::new();
    m.append(prefix);
    m.append(tail.as_str());
    m
}

impl GenerationPipeline {
    /// A pipeline over the given passes.
    pub fn new(config: GenerationConfig) -> (p: Self)
        ensures
            p.config == config,
    {
        GenerationPipeline { config }
    }

    fn visit_pass(&self, c: usize, order: &mut Vec<usize>, state: &mut Vec<u8>, Ghost(budget): Ghost<nat>, Ghost(w): Ghost<Seq<usize>>) -> (r: Result<
        (),
        String,
    >)
        requires
            is_canon(self.config.passes@, c as int),
            walk_inv(self.config.passes@, old(state)@, old(order)@),
            budget == count_zero(old(state)@),
            full_order(self.config.passes@, w) ==> forall|j: int| 0 <= j < old(state)@.len() && #[trigger] old(state)@[j] == 1 ==> rank(w, j as usize)
                > rank(w, c),
        ensures
            final(state)@.len() == old(state)@.len(),
            full_order(self.config.passes@, w) ==> r is Ok,
            match r {
                Ok(_) => {
                    &&& walk_inv(self.config.passes@, final(state)@, final(order)@)
                    &&& final(state)@[c as int] == 2
                    &&& marks_grow(old(state)@, final(state)@)
                    &&& old(order)@.len() <= final(order)@.len()
                    &&& old(order)@ == final(order)@.subrange(0, old(order)@.len() as int)
                },
                Err(e) => walk_error(self.config.passes@, e@),
            },
        decreases budget,
    {
        let passes = &self.config.passes;
        let ghost ps = passes@;
        if state[c] == 1 {
            proof {
                if full_order(ps, w) {
                    assert(rank(w, c) > rank(w, c));
                }
            }
            return Err(message("Circular dependency detected involving pass: ", &passes[c].id));
        }
        if state[c] == 2 {
            proof {
                assert(order@.subrange(0, order@.len() as int) =~= order@);
            }
            return Ok(());
        }
        let ghost s0 = state@;
        let ghost o0 = order@;
        state.set(c, 1);
        proof {
            lemma_count_zero_mark(s0, c as int, 1);
            assert(order@.subrange(0, o0.len() as int) =~= o0);
        }
        let deps = &passes[c].dependencies;
        let mut e: usize = 0;
        while e < deps.len()
            invariant
                ps == self.config.passes@,
                passes@ == ps,
                s0 == old(state)@,
                is_canon(ps, c as int),
                e <= deps@.len(),
                deps@ == ps[c as int].dependencies@,
                walk_inv(ps, state@, order@),
                state@[c as int] == 1,
                s0.len() == state@.len(),
                s0[c as int] == 0,
                marks_grow(s0.update(c as int, 1), state@),
                count_zero(state@) < budget,
                o0 == order@.subrange(0, o0.len() as int),
                o0.len() <= order@.len(),
                forall|f: int| 0 <= f < e ==> #[trigger] placed_before(ps, order@, order@.len() as int, deps@[f]@),
                full_order(ps, w) ==> forall|j: int| 0 <= j < s0.len() && #[trigger] s0[j] == 1 ==> rank(w, j as usize) > rank(w, c),
            decreases deps@.len() - e,
        {
            let d = find_pass(passes, &deps[e]);
            match d {
                None => {
                    proof {
                        assert(deps@[e as int] == ps[c as int].dependencies@[e as int]);
                        if full_order(ps, w) {
                            assert(w.contains(c));
                            let k = choose|k: int| 0 <= k < w.len() && w[k] == c;
                            assert(placed_before(ps, w, k, ps[w[k] as int].dependencies@[e as int]@));
                            let m = choose|m: int| 0 <= m < k && (#[trigger] ps[w[m] as int]).id@ == ps[c as int].dependencies@[e as int]@;
                            assert(ps[w[m] as int].id@ == deps@[e as int]@);
                            assert(has_pass(ps, deps@[e as int]@));
                        }
                    }
                    return Err(message("Dependency not found: ", &deps[e]));
                },
                Some(di) => {
                    let ghost s1 = state@;
                    let ghost o1 = order@;
                    let ghost b = count_zero(state@);
                    proof {
                        if full_order(ps, w) {
                            assert(deps@[e as int] == ps[c as int].dependencies@[e as int]);
                            lemma_dep_ranked(ps, w, c, e as int, di);
                            assert forall|j: int| 0 <= j < state@.len() && #[trigger] state@[j] == 1 implies rank(w, j as usize) > rank(w, di) by {
                                if j != c {
                                    assert(s0.update(c as int, 1)[j] == 1);
                                    assert(s0[j] == 1);
                                }
                            }
                        }
                    }
                    let r = self.visit_pass(di, order, state, Ghost(b), Ghost(w));
                    match r {
                        Err(msg) => {
                            return Err(msg);
                        },
                        Ok(_) => {
                            proof {
                                assert forall|j: int| 0 <= j < state@.len() && #[trigger] state@[j] == 0 implies s1[j] == 0 by {
                                    if s1[j] == 2 {
                                        assert(state@[j] == 2);
                                    }
                                    if s1[j] == 1 {
                                        assert(state@[j] == 1);
                                    }
                                }
                                lemma_count_zero_mono(s1, state@);
                                assert(o0 =~= order@.subrange(0, o0.len() as int));
                                assert forall|f: int| 0 <= f < e + 1 implies #[trigger] placed_before(
                                    ps,
                                    order@,
                                    order@.len() as int,
                                    deps@[f]@,
                                ) by {
                                    if f < e {
                                        lemma_placed_extends(ps, o1, order@, o1.len() as int, deps@[f]@);
                                        let m = choose|m: int| 0 <= m < o1.len() && (#[trigger] ps[o1[m] as int]).id@ == deps@[f]@;
                                        assert(order@[m] == o1[m]);
                                    } else {
                                        assert(order@.contains(di));
                                        let m = choose|m: int| 0 <= m < order@.len() && order@[m] == di;
                                        assert(ps[order@[m] as int].id@ == deps@[f]@);
                                    }
                                }
                            }
                        },
                    }
                },
            }
            e = e + 1;
        }
        let ghost s2 = state@;
        let ghost o2 = order@;
        state.set(c, 2);
        order.push(c);
        proof {
            assert(order@ == o2.push(c));
            assert(!o2.contains(c));
            assert forall|j: int| 0 <= j < state@.len() implies (#[trigger] state@[j] == 2 <==> order@.contains(j as usize)) by {
                if j != c {
                    if o2.contains(j as usize) {
                        let m = choose|m: int| 0 <= m < o2.len() && o2[m] == j as usize;
                        assert(order@[m] == j as usize);
                    }
                    if order@.contains(j as usize) {
                        let m = choose|m: int| 0 <= m < order@.len() && order@[m] == j as usize;
                        assert(order@.len() == o2.len() + 1);
                        assert(order@[o2.len() as int] == c);
                        assert(ps.len() == passes.len());
                        assert(j as usize as int == j);
                        assert(m != o2.len());
                        assert(m < o2.len());
                        assert(o2[m] == j as usize);
                    }
                } else {
                    assert(order@[o2.len() as int] == c);
                }
            }
            assert(o2 =~= order@.subrange(0, o2.len() as int));
            assert forall|k: int, f: int|
                0 <= k < order@.len() && 0 <= f < ps[order@[k] as int].dependencies@.len() implies placed_before(
                ps,
                order@,
                k,
                (#[trigger] ps[order@[k] as int].dependencies@[f])@,
            ) by {
                if k < o2.len() {
                    assert(order@[k] == o2[k]);
                    lemma_placed_extends(ps, o2, order@, k, ps[order@[k] as int].dependencies@[f]@);
                } else {
                    assert(order@[k] == c);
                    assert(placed_before(ps, o2, o2.len() as int, deps@[f]@));
                    lemma_placed_extends(ps, o2, order@, o2.len() as int, deps@[f]@);
                }
            }
            assert forall|k: int| 0 <= k < order@.len() implies is_canon(ps, #[trigger] order@[k] as int) by {
                if k < o2.len() {
                    assert(order@[k] == o2[k]);
                }
            }
            assert(order@.no_duplicates()) by {
                assert forall|a: int, b: int| 0 <= a < b < order@.len() implies order@[a] != order@[b] by {
                    if b == o2.len() {
                        assert(o2[a] == order@[a]);
                    } else {
                        assert(o2[a] == order@[a] && o2[b] == order@[b]);
                    }
                }
            }
            assert(o0 =~= order@.subrange(0, o0.len() as int));
        }
        Ok(())
    }

    /// The passes in an order that runs each after its dependencies (each id
    /// once, at its first pass), or the first cycle or unknown dependency met
    /// on the way.
    pub fn sort_passes_by_dependencies(&self) -> (r: Result<Vec<&GenerationPass>, String>)
        ensures
            match r {
                Ok(v) => exists|order: Seq<usize>| #[trigger] valid_order(self.config.passes@, order) && (forall|i: int|
                    is_canon(self.config.passes@, i) ==> #[trigger] order.contains(i as usize)) && order.len() == v@.len()
                    && forall|k: int| 0 <= k < v@.len() ==> *v@[k] == self.config.passes@[order[k] as int],
                Err(e) => walk_error(self.config.passes@, e@) && !orderable(self.config.passes@),
            },
            orderable(self.config.passes@) ==> r is Ok,
    {
        match self.dependency_order() {
            Err(e) => Err(e),
            Ok(order) => {
                let mut v: Vec<&GenerationPass> = Vec::new();
                let mut k: usize = 0;
                while k < order.len()
                    invariant
                        k <= order@.len(),
                        v@.len() == k,
                        valid_order(self.config.passes@, order@),
                        forall|m: int| 0 <= m < k ==> *v@[m] == self.config.passes@[order@[m] as int],
                    decreases order@.len() - k,
                {
                    proof {
                        assert(is_canon(self.config.passes@, order@[k as int] as int));
                    }
                    v.push(&self.config.passes[order[k]]);
                    k = k + 1;
                }
                proof {
                    assert(valid_order(self.config.passes@, order@));
                }
                Ok(v)
            },
        }
    }

    /// Positions of the passes in an order that runs each after its
    /// dependencies (each id once, at its first pass), or the first cycle or
    /// unknown dependency met on the way.
    pub fn dependency_order(&self) -> (r: Result<Vec<usize>, String>)
        ensures
            match r {
                Ok(order) => valid_order(self.config.passes@, order@) && forall|i: int|
                    is_canon(self.config.passes@, i) ==> #[trigger] order@.contains(i as usize),
                Err(e) => walk_error(self.config.passes@, e@) && !orderable(self.config.passes@),
            },
            orderable(self.config.passes@) ==> r is Ok,
    {
        let passes = &self.config.passes;
        let ghost ps = passes@;
        let ghost w = choose|order: Seq<usize>| full_order(ps, order);
        proof {
            if orderable(ps) {
                let w2 = choose|order: Seq<usize>| #[trigger] valid_order(ps, order) && forall|i: int| is_canon(ps, i) ==> order.contains(
                    i as usize,
                );
                assert(full_order(ps, w2));
            }
        }
        let n = passes.len();
        let mut state: Vec<u8> = Vec::new();
        let mut k: usize = 0;
        while k < n
            invariant
                n == ps.len(),
                k <= n,
                state@.len() == k,
                forall|j: int| 0 <= j < k ==> state@[j] == 0,
            decreases n - k,
        {
            state.push(0);
            k = k + 1;
        }
        let mut order: Vec<usize> = Vec::new();
        let mut p: usize = 0;
        while p < n
            invariant
                ps == self.config.passes@,
                passes@ == ps,
                n == ps.len(),
                p <= n,
                walk_inv(ps, state@, order@),
                orderable(ps) ==> full_order(ps, w),
                forall|j: int| 0 <= j < n ==> #[trigger] state@[j] != 1,
                forall|j: int| 0 <= j < p && is_canon(ps, j) ==> #[trigger] state@[j] == 2,
            decreases n - p,
        {
            let c = find_pass(passes, &passes[p].id);
            match c {
                Some(ci) => {
                    if state[ci] != 2 {
                        assert(ci == p) by {
                            if ci < p {
                                assert(state@[ci as int] == 2);
                            }
                            if ci > p {
                                assert(passes@[p as int].id@ == passes@[p as int].id@);
                            }
                        }
                        let ghost b = count_zero(state@);
                        let r = self.visit_pass(ci, &mut order, &mut state, Ghost(b), Ghost(w));
                        match r {
                            Err(e) => {
                                proof {
                                    if orderable(ps) {
                                        assert(full_order(ps, w));
                                    }
                                }
                                return Err(e);
                            },
                            Ok(_) => {},
                        }
                    }
                },
                None => {
                    assert(has_pass(ps, ps[p as int].id@));
                },
            }
            p = p + 1;
        }
        proof {
            assert forall|i: int| is_canon(ps, i) implies #[trigger] order@.contains(i as usize) by {
                assert(state@[i] == 2);
            }
        }
        Ok(order)
    }
}

impl GenerationPipeline {
    /// Run one pass. Every kind of pass currently hands the context on as it
    /// is.
    pub fn execute_pass(&self, pass: &GenerationPass, context: GenerationContext) -> (r: Result<GenerationContext, String>)
        ensures
            r matches Ok(c) && c == context,
    {
        match pass.pass_type {
            PassType::Terrain => Ok(context),
            PassType::Features => Ok(context),
            PassType::Entities => Ok(context),
            PassType::Narrative => Ok(context),
        }
    }

    /// Run every pass in dependency order; fails, as the sort does, on a
    /// cycle or an unknown dependency, and succeeds exactly where the passes
    /// can be put in an order that runs each after its dependencies.
    pub fn generate(&self, context: GenerationContext) -> (r: Result<GenerationContext, String>)
        ensures
            match r {
                Ok(c) => c == context && orderable(self.config.passes@),
                Err(e) => walk_error(self.config.passes@, e@) && !orderable(self.config.passes@),
            },
            orderable(self.config.passes@) ==> r is Ok,
    {
        let sorted = self.dependency_order();
        match sorted {
            Err(e) => Err(e),
            Ok(order) => {
                proof {
                    assert(valid_order(self.config.passes@, order@));
                    assert(orderable(self.config.passes@));
                }
                let mut ctx = context;
                let mut k: usize = 0;
                while k < order.len()
                    invariant
                        k <= order@.len(),
                        valid_order(self.config.passes@, order@),
                        ctx == context,
                        orderable(self.config.passes@),
                    decreases order@.len() - k,
                {
                    let i = order[k];
                    proof {
                        assert(is_canon(self.config.passes@, order@[k as int] as int));
                    }
                    let r = self.execute_pass(&self.config.passes[i], ctx);
                    match r {
                        Ok(c) => {
                            ctx = c;
                        },
                        Err(e) => {
                            return Err(e);
                        },
                    }
                    k = k + 1;
                }
                Ok(ctx)
            },
        }
    }
}

} // verus!
