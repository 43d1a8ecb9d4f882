//! Gameplay constraints on generated maps: the rule vocabulary, the placement
//! context, and the grid measurements the rules are scored from.

use vstd::prelude::*;
use crate::map::{TileMap, Tile, Biome, tile_walkable, cell_index, lemma_cell_index_bounds, lemma_cell_index_injective};
use crate::connectivity::{abs_int, adjacent4, point_within, count_false, lemma_count_false_update};

verus! {

/// Kinds of constraint a rule can check.
#[derive(Debug, Clone, Copy, PartialEq, Eq)]
pub enum ConstraintType {
    Connectivity,
    Distance,
    Accessibility,
    Balance,
    Placement,
    Resource,
    Tactical,
    SafeZone,
    EscapeRoute,
    ObjectiveAccessibility,
}

/// How much a violated rule matters.
#[derive(Debug, Clone, Copy, PartialEq, Eq)]
pub enum ConstraintSeverity {
    /// Must be satisfied.
    Critical,
    /// Should be satisfied.
    Warning,
    /// Nice to have.
    Suggestion,
}

/// An entity placed on the map.
#[derive(Debug, Clone)]
pub struct EntityPlacement {
    pub entity_type: String,
    pub x: i32,
    pub y: i32,
    pub properties: Vec<(String, String)>,
}

/// A resource placed on the map.
#[derive(Debug, Clone)]
pub struct ResourcePlacement {
    pub resource_type: String,
    pub x: i32,
    pub y: i32,
    pub amount: u32,
}

/// An objective placed on the map.
#[derive(Debug, Clone)]
pub struct ObjectivePlacement {
    pub objective_type: String,
    pub x: i32,
    pub y: i32,
    pub required: bool,
}

/// What the rules are checked against: a map and what was placed on it.
pub struct ConstraintContext<'a> {
    pub map: &'a TileMap,
    pub biome: Biome,
    pub entities: Vec<EntityPlacement>,
    pub resources: Vec<ResourcePlacement>,
    pub objectives: Vec<ObjectivePlacement>,
}

/// The outcome of one rule.
#[derive(Debug, Clone)]
pub struct ConstraintResult {
    pub rule_id: String,
    pub passed: bool,
    pub severity: ConstraintSeverity,
    pub message: String,
}

/// Checks generated maps against the gameplay rules.
pub struct ConstraintSystem;

/// Every critical rule passed.
pub open spec fn critical_rules_pass(results: Seq<ConstraintResult>) -> bool {
    forall|i: int| 0 <= i < results.len() && results[i].severity == ConstraintSeverity::Critical
        ==> #[trigger] results[i].passed
}

impl ConstraintSystem {
/// Whether every critical rule passed.
pub fn are_critical_constraints_satisfied(results: &[ConstraintResult]) -> (b: bool)
    ensures
        b == critical_rules_pass(results@),
{
    let mut k: usize = 0;
    while k < results.len()
        invariant
            k <= results@.len(),
            forall|i: int| 0 <= i < k && results@[i].severity == ConstraintSeverity::Critical
                ==> #[trigger] results@[i].passed,
        decreases results@.len() - k,
    {
        let critical = match results[k].severity {
            ConstraintSeverity::Critical => true,
            _ => false,
        };
        if critical && !results[k].passed {
            return false;
        }
        k = k + 1;
    }
    true
}
}

/// 1 when the cell is inside the map and walkable, else 0.
pub open spec fn floor_at(m: &TileMap, x: int, y: int) -> nat {
    if m.walkable_at(x, y) { 1 } else { 0 }
}

/// Number of walkable cells among the eight around `(x, y)`.
pub open spec fn adjacent_floor_count(m: &TileMap, x: int, y: int) -> nat {
    floor_at(m, x - 1, y - 1) + floor_at(m, x, y - 1) + floor_at(m, x + 1, y - 1)
        + floor_at(m, x - 1, y) + floor_at(m, x + 1, y)
        + floor_at(m, x - 1, y + 1) + floor_at(m, x, y + 1) + floor_at(m, x + 1, y + 1)
}

fn floor_at_exec(m: &TileMap, x: i32, y: i32) -> (r: u32)
    requires
        m.wf(),
    ensures
        r == floor_at(m, x as int, y as int),
{
    if m.is_walkable(x, y) { 1 } else { 0 }
}

impl ConstraintSystem {
/// Count the walkable cells among the eight around `(x, y)`.
pub fn count_adjacent_floors(m: &TileMap, x: i32, y: i32) -> (count: u32)
    requires
        m.wf(),
        point_within((x, y), 1),
    ensures
        count == adjacent_floor_count(m, x as int, y as int),
        count <= 8,
{
    floor_at_exec(m, x - 1, y - 1) + floor_at_exec(m, x, y - 1) + floor_at_exec(m, x + 1, y - 1)
        + floor_at_exec(m, x - 1, y) + floor_at_exec(m, x + 1, y)
        + floor_at_exec(m, x - 1, y + 1) + floor_at_exec(m, x, y + 1) + floor_at_exec(m, x + 1, y + 1)
}
}

/// Walking from `(x, y)` in direction `(dx, dy)`, the map edge is passed
/// within `steps` steps without meeting a cell that cannot be walked on.
pub open spec fn escapes(m: &TileMap, x: int, y: int, dx: int, dy: int, steps: nat) -> bool
    decreases steps,
{
    if steps == 0 {
        false
    } else {
        let cx = x + dx;
        let cy = y + dy;
        if !m.in_bounds_spec(cx, cy) {
            true
        } else if !tile_walkable(m.tile_at(cx, cy)) {
            false
        } else {
            escapes(m, cx, cy, dx, dy, (steps - 1) as nat)
        }
    }
}

/// Number of the four directions in which the map edge lies within ten free steps.
pub open spec fn exit_route_count(m: &TileMap, x: int, y: int) -> nat {
    (if escapes(m, x, y, 0, 1, 10) { 1nat } else { 0nat }) + (if escapes(m, x, y, 1, 0, 10) { 1nat } else { 0nat })
        + (if escapes(m, x, y, 0, -1, 10) { 1nat } else { 0nat }) + (if escapes(m, x, y, -1, 0, 10) { 1nat } else { 0nat })
}

fn escapes_exec(m: &TileMap, x: i32, y: i32, dx: i32, dy: i32) -> (b: bool)
    requires
        m.wf(),
        point_within((x, y), 11),
        -1 <= dx <= 1,
        -1 <= dy <= 1,
    ensures
        b == escapes(m, x as int, y as int, dx as int, dy as int, 10),
{
    let mut steps: i32 = 0;
    let mut cx = x;
    let mut cy = y;
    while steps < 10
        invariant
            m.wf(),
            point_within((x, y), 11),
            -1 <= dx <= 1,
            -1 <= dy <= 1,
            0 <= steps <= 10,
            cx == x + steps * dx,
            cy == y + steps * dy,
            escapes(m, x as int, y as int, dx as int, dy as int, 10) == escapes(
                m,
                cx as int,
                cy as int,
                dx as int,
                dy as int,
                (10 - steps) as nat,
            ),
        decreases 10 - steps,
    {
        proof {
            assert(cx + dx == x + (steps + 1) * dx) by (nonlinear_arith)
                requires
                    cx == x + steps * dx,
            ;
            assert(cy + dy == y + (steps + 1) * dy) by (nonlinear_arith)
                requires
                    cy == y + steps * dy,
            ;
            assert(-11 <= (steps + 1) * dx <= 11 && -11 <= (steps + 1) * dy <= 11) by (nonlinear_arith)
                requires
                    0 <= steps < 10,
                    -1 <= dx <= 1,
                    -1 <= dy <= 1,
            ;
        }
        cx = cx + dx;
        cy = cy + dy;
        steps = steps + 1;
        if !m.in_bounds(cx, cy) {
            return true;
        }
        if !m.get_tile(cx, cy).walkable() {
            return false;
        }
    }
    false
}

impl ConstraintSystem {
/// Count the directions (of the four) in which the map edge lies within ten
/// steps over walkable cells.
pub fn count_exit_routes(m: &TileMap, x: i32, y: i32) -> (routes: u32)
    requires
        m.wf(),
        point_within((x, y), 11),
    ensures
        routes == exit_route_count(m, x as int, y as int),
{
    let mut routes: u32 = 0;
    if escapes_exec(m, x, y, 0, 1) {
        routes = routes + 1;
    }
    if escapes_exec(m, x, y, 1, 0) {
        routes = routes + 1;
    }
    if escapes_exec(m, x, y, 0, -1) {
        routes = routes + 1;
    }
    if escapes_exec(m, x, y, -1, 0) {
        routes = routes + 1;
    }
    routes
}
}


/// Each cell of `path` after the first is walkable and shares an edge with
/// the one before it.
pub open spec fn steps_ok(m: &TileMap, path: Seq<(int, int)>) -> bool {
    forall|i: int|
        1 <= i < path.len() ==> m.walkable_at(path[i].0, path[i].1) && abs_int(
            #[trigger] path[i].0 - path[i - 1].0,
        ) + abs_int(path[i].1 - path[i - 1].1) == 1
}

/// A walk over walkable cells of `d` steps from `s` to `e`.
pub open spec fn walk(m: &TileMap, s: (int, int), e: (int, int), d: nat) -> bool {
    exists|path: Seq<(int, int)>|
        path.len() == d + 1 && path[0] == s && path[d as int] == e && #[trigger] steps_ok(m, path)
}

proof fn lemma_walk_start(m: &TileMap, s: (int, int))
    ensures
        walk(m, s, s, 0),
{
    let path = seq![s];
    assert(steps_ok(m, path));
}

proof fn lemma_walk_step(m: &TileMap, s: (int, int), p: (int, int), e: (int, int), d: nat)
    requires
        walk(m, s, p, d),
        m.walkable_at(e.0, e.1),
        abs_int(e.0 - p.0) + abs_int(e.1 - p.1) == 1,
    ensures
        walk(m, s, e, d + 1),
{
    let path = choose|path: Seq<(int, int)>|
        path.len() == d + 1 && path[0] == s && path[d as int] == p && #[trigger] steps_ok(m, path);
    let np = path.push(e);
    assert forall|i: int| 1 <= i < np.len() implies m.walkable_at(np[i].0, np[i].1) && abs_int(
        #[trigger] np[i].0 - np[i - 1].0,
    ) + abs_int(np[i].1 - np[i - 1].1) == 1 by {
        if i < path.len() {
            assert(np[i] == path[i]);
            assert(np[i - 1] == path[i - 1]);
            assert(path[i].0 - path[i - 1].0 == np[i].0 - np[i - 1].0);
        } else {
            assert(np[i - 1] == p);
        }
    }
    assert(steps_ok(m, np));
}

/// The cell is on the map and marked.
pub open spec fn marked(m: &TileMap, v: Seq<bool>, c: (int, int)) -> bool {
    m.in_bounds_spec(c.0, c.1) && v[cell_index(m.width as int, c.0, c.1)]
}

/// The label kept for a cell.
pub open spec fn label_at(m: &TileMap, lab: Seq<int>, c: (int, int)) -> int {
    lab[cell_index(m.width as int, c.0, c.1)]
}

/// Some entry of the queue is at the cell.
pub open spec fn queued(q: Seq<(i32, i32, u32)>, c: (int, int)) -> bool {
    exists|k: int| 0 <= k < q.len() && (#[trigger] q[k]).0 == c.0 && q[k].1 == c.1
}

/// The shortest walk from `s` to `c` takes `d` steps.
pub open spec fn shortest(m: &TileMap, s: (int, int), c: (int, int), d: int) -> bool {
    d >= 0 && walk(m, s, c, d as nat) && forall|e: int| 0 <= e < d ==> !#[trigger] walk(m, s, c, e as nat)
}

/// The four steps of the search: down, right, up, left.
pub open spec fn dir_of(i: int) -> (int, int) {
    if i == 0 { (0, 1) } else if i == 1 { (1, 0) } else if i == 2 { (0, -1) } else { (-1, 0) }
}

/// Every walkable neighbour of the cell is marked.
pub open spec fn nbrs_marked(m: &TileMap, v: Seq<bool>, c: (int, int)) -> bool {
    forall|i: int| 0 <= i < 4 ==> (m.walkable_at(c.0 + dir_of(i).0, c.1 + dir_of(i).1) ==> marked(
        m,
        v,
        (c.0 + #[trigger] dir_of(i).0, c.1 + dir_of(i).1),
    ))
}

/// Every marked cell is labelled with its shortest walk from `s`, of at
/// most 100 steps.
pub open spec fn bfs_labels(m: &TileMap, v: Seq<bool>, lab: Seq<int>, s: (int, int)) -> bool {
    forall|c: (int, int)| #[trigger] marked(m, v, c) ==> shortest(m, s, c, label_at(m, lab, c)) && label_at(m, lab, c) <= 100
}

/// The queue holds marked cells with their labels, in order, between `lo`
/// and `lo + 1`.
pub open spec fn bfs_queue(m: &TileMap, v: Seq<bool>, lab: Seq<int>, q: Seq<(i32, i32, u32)>, lo: int) -> bool {
    &&& forall|k: int| 0 <= k < q.len() ==> marked(m, v, ((#[trigger] q[k]).0 as int, q[k].1 as int)) && label_at(
        m,
        lab,
        (q[k].0 as int, q[k].1 as int),
    ) == q[k].2 && lo <= q[k].2 <= lo + 1
    &&& forall|i: int, j: int| 0 <= i < j < q.len() ==> (#[trigger] q[i]).2 <= (#[trigger] q[j]).2
}

/// Marked cells out of the queue (but `skip`) were taken out: labelled at
/// most `lo`, not the end, and, under 100, with their neighbours marked.
pub open spec fn bfs_done(
    m: &TileMap,
    v: Seq<bool>,
    lab: Seq<int>,
    q: Seq<(i32, i32, u32)>,
    lo: int,
    end: (int, int),
    skip: Option<(int, int)>,
) -> bool {
    forall|c: (int, int)| #[trigger] marked(m, v, c) && !queued(q, c) && skip != Some(c) ==> label_at(m, lab, c) <= lo && c != end
        && (label_at(m, lab, c) < 100 ==> nbrs_marked(m, v, c))
}

/// A walk of one step more than zero ends at a neighbour of the end of a
/// walk one step shorter.
proof fn lemma_walk_prefix(m: &TileMap, s: (int, int), c: (int, int), k: nat) -> (p: (int, int))
    requires
        walk(m, s, c, k),
        k >= 1,
    ensures
        walk(m, s, p, (k - 1) as nat),
        m.walkable_at(c.0, c.1),
        abs_int(c.0 - p.0) + abs_int(c.1 - p.1) == 1,
{
    let path = choose|path: Seq<(int, int)>| path.len() == k + 1 && path[0] == s && path[k as int] == c && #[trigger] steps_ok(m, path);
    let pre = path.take(k as int);
    assert forall|i: int| 1 <= i < pre.len() implies m.walkable_at(pre[i].0, pre[i].1) && abs_int(#[trigger] pre[i].0 - pre[i - 1].0)
        + abs_int(pre[i].1 - pre[i - 1].1) == 1 by {
        assert(pre[i] == path[i] && pre[i - 1] == path[i - 1]);
    }
    assert(steps_ok(m, pre));
    assert(path[k as int].0 == c.0);
    path[k - 1]
}

/// Every cell within `bound` steps of the start is marked, where marked
/// cells labelled below `bound` out of the queue have their neighbours
/// marked and the queue holds labels of at least `bound`.
proof fn lemma_bfs_reach(
    m: &TileMap,
    v: Seq<bool>,
    lab: Seq<int>,
    q: Seq<(i32, i32, u32)>,
    s: (int, int),
    bound: int,
    c: (int, int),
    k: nat,
)
    requires
        m.wf(),
        marked(m, v, s),
        bfs_labels(m, v, lab, s),
        forall|kk: int| 0 <= kk < q.len() ==> (#[trigger] q[kk]).2 >= bound && label_at(m, lab, (q[kk].0 as int, q[kk].1 as int))
            == q[kk].2,
        forall|c2: (int, int)| #[trigger] marked(m, v, c2) && !queued(q, c2) && label_at(m, lab, c2) < bound ==> nbrs_marked(m, v, c2),
        bound <= 100,
        k <= bound,
        walk(m, s, c, k),
    ensures
        marked(m, v, c),
    decreases k,
{
    if k == 0 {
        let path = choose|path: Seq<(int, int)>| path.len() == k + 1 && path[0] == s && path[k as int] == c && #[trigger] steps_ok(m, path);
        assert(c == s);
    } else {
        let p = lemma_walk_prefix(m, s, c, k);
        lemma_bfs_reach(m, v, lab, q, s, bound, p, (k - 1) as nat);
        assert(marked(m, v, p));
        let lp = label_at(m, lab, p);
        assert(shortest(m, s, p, lp));
        if lp > k - 1 {
            assert(!walk(m, s, p, (k - 1) as nat));
        }
        if queued(q, p) {
            let kk = choose|kk: int| 0 <= kk < q.len() && (#[trigger] q[kk]).0 == p.0 && q[kk].1 == p.1;
            assert(label_at(m, lab, (q[kk].0 as int, q[kk].1 as int)) == q[kk].2);
        }
        assert(nbrs_marked(m, v, p));
        let dx = c.0 - p.0;
        let dy = c.1 - p.1;
        let i: int = if dx == 0 && dy == 1 { 0 } else if dx == 1 { 1 } else if dy == -1 { 2 } else { 3 };
        assert(dir_of(i) == (dx, dy));
        assert(c == (p.0 + dir_of(i).0, p.1 + dir_of(i).1));
    }
}

/// Row-major index that the start of a path search is read from.
pub open spec fn raw_index(m: &TileMap, p: (i32, i32)) -> int {
    p.1 * m.width + p.0
}

impl ConstraintSystem {
/// Length of the shortest walk from `start` to `end` over walkable cells,
/// as a breadth-first search that expands no cell 100 or more steps away
/// finds it; 0 when the start cell cannot be walked on or no walk of at
/// most 100 steps exists. Where the start lies on the map, the length is
/// that of a shortest walk.
pub fn calculate_path_length(m: &TileMap, start: (i32, i32), end: (i32, i32)) -> (r: u32)
    requires
        m.wf(),
        i32::MIN <= raw_index(m, start) <= i32::MAX,
    ensures
        (raw_index(m, start) < 0 || raw_index(m, start) >= m.tiles@.len() || !tile_walkable(
            m.tiles@[raw_index(m, start)],
        )) ==> r == 0,
        r > 0 ==> walk(m, (start.0 as int, start.1 as int), (end.0 as int, end.1 as int), r as nat),
        r <= 100,
        m.in_bounds_spec(start.0 as int, start.1 as int) ==> forall|e: int| 0 <= e < r ==> !#[trigger] walk(
            m,
            (start.0 as int, start.1 as int),
            (end.0 as int, end.1 as int),
            e as nat,
        ),
        m.walkable_at(start.0 as int, start.1 as int) && r == 0 && start != end ==> forall|e: int| 0 <= e <= 100 ==> !#[trigger] walk(
            m,
            (start.0 as int, start.1 as int),
            (end.0 as int, end.1 as int),
            e as nat,
        ),
{
    let n = m.tiles.len();
    let w = m.width as i32;
    let raw: i64 = start.1 as i64 * m.width as i64 + start.0 as i64;
    proof {
        if m.in_bounds_spec(start.0 as int, start.1 as int) {
            lemma_cell_index_bounds(m.width as int, m.height as int, start.0 as int, start.1 as int);
        }
    }
    if raw < 0 || raw as u64 >= n as u64 {
        return 0;
    }
    let start_idx = raw as usize;
    if !m.tiles[start_idx].walkable() {
        return 0;
    }
    let mut visited: Vec<bool> = Vec::new();
    let mut k: usize = 0;
    while k < n
        invariant
            k <= n,
            visited@.len() == k,
            forall|i: int| 0 <= i < k ==> !visited@[i],
        decreases n - k,
    {
        visited.push(false);
        k = k + 1;
    }
    let ghost s = (start.0 as int, start.1 as int);
    let ghost ec = (end.0 as int, end.1 as int);
    let ghost sb = m.in_bounds_spec(s.0, s.1);
    let ghost mut lab: Seq<int> = Seq::new(n as nat, |i: int| 0int);
    let ghost mut lo: int = 0;
    let mut queue: std::collections::VecDeque<(i32, i32, u32)> = std::collections::VecDeque::new();
    queue.push_back((start.0, start.1, 0));
    proof {
        lemma_walk_start(m, s);
    }
    visited.set(start_idx, true);
    proof {
        if sb {
            assert(start_idx as int == cell_index(m.width as int, s.0, s.1));
            assert(marked(m, visited@, s));
            assert forall|c: (int, int)| #[trigger] marked(m, visited@, c) implies shortest(m, s, c, label_at(m, lab, c)) && label_at(
                m,
                lab,
                c,
            ) <= 100 by {
                lemma_cell_index_bounds(m.width as int, m.height as int, c.0, c.1);
                if c != s {
                    lemma_cell_index_injective(m.width as int, c.0, c.1, s.0, s.1);
                }
            }
            assert(queue@[0].0 == start.0);
            assert forall|c: (int, int)| #[trigger] marked(m, visited@, c) && !queued(queue@, c) && None::<(int, int)> != Some(c)
                implies label_at(m, lab, c) <= lo && c != ec && (label_at(m, lab, c) < 100 ==> nbrs_marked(m, visited@, c)) by {
                lemma_cell_index_bounds(m.width as int, m.height as int, c.0, c.1);
                if c != s {
                    lemma_cell_index_injective(m.width as int, c.0, c.1, s.0, s.1);
                }
                assert(queue@[0].0 == c.0 && queue@[0].1 == c.1);
            }
        }
    }
    while queue.len() > 0
        invariant
            m.wf(),
            n == m.tiles@.len(),
            visited@.len() == n,
            lab.len() == n,
            w == m.width,
            0 <= raw_index(m, start) < n,
            tile_walkable(m.tiles@[raw_index(m, start)]),
            s == (start.0 as int, start.1 as int),
            ec == (end.0 as int, end.1 as int),
            sb == m.in_bounds_spec(s.0, s.1),
            0 <= lo <= 100,
            forall|q: int|
                0 <= q < queue@.len() ==> {
                    &&& (#[trigger] queue@[q]).2 <= 100
                    &&& walk(m, s, (queue@[q].0 as int, queue@[q].1 as int), queue@[q].2 as nat)
                    &&& (queue@[q].2 > 0 ==> m.in_bounds_spec(queue@[q].0 as int, queue@[q].1 as int))
                    &&& (queue@[q].2 == 0 ==> queue@[q].0 == start.0 && queue@[q].1 == start.1)
                },
            sb ==> marked(m, visited@, s),
            sb ==> bfs_labels(m, visited@, lab, s),
            sb ==> bfs_queue(m, visited@, lab, queue@, lo),
            sb ==> bfs_done(m, visited@, lab, queue@, lo, ec, None),
        decreases count_false(visited@), queue@.len(),
    {
        let ghost old_q = queue@;
        proof {
            assert(old_q[0].2 <= 100);
        }
        let (x, y, dist) = match queue.pop_front() {
            Some(e) => e,
            None => (0, 0, 0),
        };
        let ghost q = (x as int, y as int);
        proof {
            assert(old_q[0] == (x, y, dist));
            assert(queue@ =~= old_q.drop_first());
            if sb {
                assert(marked(m, visited@, q));
                assert(label_at(m, lab, q) == dist);
                assert(lo <= dist);
                assert forall|c: (int, int)| queued(old_q, c) && c != q implies queued(queue@, c) by {
                    let kk = choose|kk: int| 0 <= kk < old_q.len() && (#[trigger] old_q[kk]).0 == c.0 && old_q[kk].1 == c.1;
                    assert(kk > 0);
                    assert(queue@[kk - 1] == old_q[kk]);
                }
                assert forall|kk: int| 0 <= kk < queue@.len() implies dist <= (#[trigger] queue@[kk]).2 <= dist + 1 by {
                    assert(queue@[kk] == old_q[kk + 1]);
                    assert(old_q[0].2 <= old_q[kk + 1].2);
                }
            }
            lo = dist as int;
        }
        if x == end.0 && y == end.1 {
            proof {
                if sb {
                    assert(shortest(m, s, q, dist as int));
                }
            }
            return dist;
        }
        if dist >= 100 {
            proof {
                if sb {
                    assert forall|c: (int, int)| #[trigger] marked(m, visited@, c) && !queued(queue@, c) && None::<(int, int)> != Some(c)
                        implies label_at(m, lab, c) <= lo && c != ec && (label_at(m, lab, c) < 100 ==> nbrs_marked(m, visited@, c)) by {
                        if c != q {
                            assert(!queued(old_q, c));
                        }
                    }
                    assert forall|kk: int| 0 <= kk < queue@.len() implies marked(m, visited@, ((#[trigger] queue@[kk]).0 as int, queue@[kk].1 as int))
                        && label_at(m, lab, (queue@[kk].0 as int, queue@[kk].1 as int)) == queue@[kk].2 && lo <= queue@[kk].2 <= lo + 1 by {
                        assert(queue@[kk] == old_q[kk + 1]);
                    }
                    assert forall|i: int, j: int| 0 <= i < j < queue@.len() implies (#[trigger] queue@[i]).2 <= (#[trigger] queue@[j]).2 by {
                        assert(queue@[i] == old_q[i + 1] && queue@[j] == old_q[j + 1]);
                    }
                }
            }
            continue;
        }
        let ghost before = queue@;
        let ghost vis_before = visited@;
        proof {
            if sb {
                assert forall|kk: int| 0 <= kk < queue@.len() implies marked(m, visited@, ((#[trigger] queue@[kk]).0 as int, queue@[kk].1 as int))
                    && label_at(m, lab, (queue@[kk].0 as int, queue@[kk].1 as int)) == queue@[kk].2 && lo <= queue@[kk].2 <= lo + 1 by {
                    assert(queue@[kk] == old_q[kk + 1]);
                }
                assert forall|i: int, j: int| 0 <= i < j < queue@.len() implies (#[trigger] queue@[i]).2 <= (#[trigger] queue@[j]).2 by {
                    assert(queue@[i] == old_q[i + 1] && queue@[j] == old_q[j + 1]);
                }
                assert forall|c: (int, int)| #[trigger] marked(m, visited@, c) && !queued(queue@, c) && Some(q) != Some(c)
                    implies label_at(m, lab, c) <= lo && c != ec && (label_at(m, lab, c) < 100 ==> nbrs_marked(m, visited@, c)) by {
                    assert(!queued(old_q, c));
                }
            }
        }
        let dirs: [(i32, i32); 4] = [(0, 1), (1, 0), (0, -1), (-1, 0)];
        let mut d: usize = 0;
        let mut pushed_any = false;
        while d < 4
            invariant
                m.wf(),
                n == m.tiles@.len(),
                visited@.len() == n,
                lab.len() == n,
                w == m.width,
                d <= 4,
                dist < 100,
                lo == dist,
                walk(m, s, q, dist as nat),
                dist > 0 ==> m.in_bounds_spec(q.0, q.1),
                dist == 0 ==> x == start.0 && y == start.1,
                q == (x as int, y as int),
                s == (start.0 as int, start.1 as int),
                ec == (end.0 as int, end.1 as int),
                sb == m.in_bounds_spec(s.0, s.1),
                q != ec,
                dirs@ == seq![(0i32, 1i32), (1i32, 0i32), (0i32, -1i32), (-1i32, 0i32)],
                forall|i: int| 0 <= i < 4 ==> abs_int((#[trigger] dirs@[i]).0 as int) + abs_int(dirs@[i].1 as int) == 1,
                count_false(visited@) <= count_false(vis_before),
                pushed_any ==> count_false(visited@) < count_false(vis_before),
                queue@.len() == before.len() + (if pushed_any { queue@.len() - before.len() } else { 0 }),
                !pushed_any ==> queue@ == before,
                forall|i: int|
                    0 <= i < queue@.len() ==> {
                        &&& (#[trigger] queue@[i]).2 <= 100
                        &&& walk(m, s, (queue@[i].0 as int, queue@[i].1 as int), queue@[i].2 as nat)
                        &&& (queue@[i].2 > 0 ==> m.in_bounds_spec(queue@[i].0 as int, queue@[i].1 as int))
                        &&& (queue@[i].2 == 0 ==> queue@[i].0 == start.0 && queue@[i].1 == start.1)
                    },
                sb ==> marked(m, visited@, s),
                sb ==> marked(m, visited@, q) && label_at(m, lab, q) == dist,
                sb ==> bfs_labels(m, visited@, lab, s),
                sb ==> bfs_queue(m, visited@, lab, queue@, lo),
                sb ==> bfs_done(m, visited@, lab, queue@, lo, ec, Some(q)),
                sb ==> forall|i: int| 0 <= i < d ==> (m.walkable_at(q.0 + dir_of(i).0, q.1 + dir_of(i).1) ==> marked(
                    m,
                    visited@,
                    (q.0 + #[trigger] dir_of(i).0, q.1 + dir_of(i).1),
                )),
            decreases 4 - d,
        {
            let (dx, dy) = dirs[d];
            proof {
                assert(abs_int(dirs@[d as int].0 as int) + abs_int(dirs@[d as int].1 as int) == 1);
                assert((dx as int, dy as int) == dir_of(d as int));
            }
            if x > i32::MIN && x < i32::MAX && y > i32::MIN && y < i32::MAX {
                let nx = x + dx;
                let ny = y + dy;
                if m.in_bounds(nx, ny) {
                    let idx = m.idx(nx, ny);
                    if !visited[idx] && m.tiles[idx].walkable() {
                        let ghost e = (nx as int, ny as int);
                        let ghost v0 = visited@;
                        let ghost lab0 = lab;
                        let ghost q0 = queue@;
                        proof {
                            lemma_count_false_update(visited@, idx as int);
                            assert(abs_int(e.0 - q.0) + abs_int(e.1 - q.1) == 1);
                            assert(m.walkable_at(e.0, e.1));
                            lemma_walk_step(m, s, q, e, dist as nat);
                            if sb {
                                assert(!marked(m, v0, e));
                                assert forall|kk: int| 0 <= kk < q0.len() implies (#[trigger] q0[kk]).2 >= dist && label_at(
                                    m,
                                    lab0,
                                    (q0[kk].0 as int, q0[kk].1 as int),
                                ) == q0[kk].2 by {}
                                assert forall|c2: (int, int)| #[trigger] marked(m, v0, c2) && !queued(q0, c2) && label_at(m, lab0, c2) < dist
                                    implies nbrs_marked(m, v0, c2) by {
                                    if c2 == q {
                                    }
                                }
                                assert forall|ee: int| 0 <= ee <= dist implies !#[trigger] walk(m, s, e, ee as nat) by {
                                    if walk(m, s, e, ee as nat) {
                                        lemma_bfs_reach(m, v0, lab0, q0, s, dist as int, e, ee as nat);
                                    }
                                }
                            }
                        }
                        visited.set(idx, true);
                        queue.push_back((nx, ny, dist + 1));
                        proof {
                            lab = lab0.update(idx as int, dist + 1);
                            assert forall|i: int| 0 <= i < q0.len() implies #[trigger] queue@[i] == q0[i] by {}
                            assert(queue@[q0.len() as int] == (nx, ny, (dist + 1) as u32));
                            if sb {
                                assert forall|c: (int, int)| #[trigger] marked(m, v0, c) implies marked(m, visited@, c) && label_at(m, lab, c)
                                    == label_at(m, lab0, c) by {
                                    lemma_cell_index_bounds(m.width as int, m.height as int, c.0, c.1);
                                    if c != e {
                                        lemma_cell_index_injective(m.width as int, c.0, c.1, e.0, e.1);
                                    }
                                }
                                assert(marked(m, visited@, e));
                                assert(label_at(m, lab, e) == dist + 1);
                                assert forall|c: (int, int)| #[trigger] marked(m, visited@, c) implies shortest(m, s, c, label_at(m, lab, c))
                                    && label_at(m, lab, c) <= 100 by {
                                    lemma_cell_index_bounds(m.width as int, m.height as int, c.0, c.1);
                                    if c != e {
                                        lemma_cell_index_injective(m.width as int, c.0, c.1, e.0, e.1);
                                        assert(marked(m, v0, c));
                                    } else {
                                        assert forall|ee: int| 0 <= ee < dist + 1 implies !#[trigger] walk(m, s, e, ee as nat) by {
                                            assert(!walk(m, s, e, ee as nat));
                                        }
                                    }
                                }
                                assert forall|kk: int| 0 <= kk < queue@.len() implies marked(m, visited@, ((#[trigger] queue@[kk]).0 as int, queue@[kk].1 as int))
                                    && label_at(m, lab, (queue@[kk].0 as int, queue@[kk].1 as int)) == queue@[kk].2 && lo <= queue@[kk].2 <= lo + 1 by {
                                    if kk < q0.len() {
                                        assert(marked(m, v0, (q0[kk].0 as int, q0[kk].1 as int)));
                                    }
                                }
                                assert forall|i: int, j: int| 0 <= i < j < queue@.len() implies (#[trigger] queue@[i]).2 <= (#[trigger] queue@[j]).2 by {
                                    if j < q0.len() {
                                        assert(q0[i].2 <= q0[j].2);
                                    } else {
                                        assert(q0[i].2 <= lo + 1);
                                    }
                                }
                                assert forall|c: (int, int)| #[trigger] queued(q0, c) implies queued(queue@, c) by {
                                    let kk = choose|kk: int| 0 <= kk < q0.len() && (#[trigger] q0[kk]).0 == c.0 && q0[kk].1 == c.1;
                                    assert(queue@[kk] == q0[kk]);
                                }
                                assert(queued(queue@, e));
                                assert forall|c: (int, int)| #[trigger] marked(m, visited@, c) && !queued(queue@, c) && Some(q) != Some(c)
                                    implies label_at(m, lab, c) <= lo && c != ec && (label_at(m, lab, c) < 100 ==> nbrs_marked(m, visited@, c)) by {
                                    lemma_cell_index_bounds(m.width as int, m.height as int, c.0, c.1);
                                    if c != e {
                                        lemma_cell_index_injective(m.width as int, c.0, c.1, e.0, e.1);
                                    }
                                    assert(marked(m, v0, c));
                                    assert(!queued(q0, c));
                                    if label_at(m, lab0, c) < 100 {
                                        assert(nbrs_marked(m, v0, c));
                                        assert forall|i: int| 0 <= i < 4 implies (m.walkable_at(c.0 + dir_of(i).0, c.1 + dir_of(i).1) ==> marked(
                                            m,
                                            visited@,
                                            (c.0 + #[trigger] dir_of(i).0, c.1 + dir_of(i).1),
                                        )) by {
                                            if m.walkable_at(c.0 + dir_of(i).0, c.1 + dir_of(i).1) {
                                                assert(marked(m, v0, (c.0 + dir_of(i).0, c.1 + dir_of(i).1)));
                                            }
                                        }
                                    }
                                }
                                assert forall|i: int| 0 <= i < d + 1 implies (m.walkable_at(q.0 + dir_of(i).0, q.1 + dir_of(i).1) ==> marked(
                                    m,
                                    visited@,
                                    (q.0 + #[trigger] dir_of(i).0, q.1 + dir_of(i).1),
                                )) by {
                                    if i < d && m.walkable_at(q.0 + dir_of(i).0, q.1 + dir_of(i).1) {
                                        assert(marked(m, v0, (q.0 + dir_of(i).0, q.1 + dir_of(i).1)));
                                    }
                                }
                                assert(marked(m, visited@, q));
                                assert(marked(m, visited@, s));
                            }
                        }
                        pushed_any = true;
                    }
                }
            }
            proof {
                if sb {
                    let c = (q.0 + dir_of(d as int).0, q.1 + dir_of(d as int).1);
                    if m.walkable_at(c.0, c.1) {
                        assert(marked(m, visited@, c));
                    }
                }
            }
            d = d + 1;
        }
        proof {
            if sb {
                assert(nbrs_marked(m, visited@, q));
                assert forall|c: (int, int)| #[trigger] marked(m, visited@, c) && !queued(queue@, c) && None::<(int, int)> != Some(c)
                    implies label_at(m, lab, c) <= lo && c != ec && (label_at(m, lab, c) < 100 ==> nbrs_marked(m, visited@, c)) by {
                    if c == q {
                    }
                }
            }
        }
    }
    proof {
        if m.walkable_at(s.0, s.1) && start != end {
            assert forall|ee: int| 0 <= ee <= 100 implies !#[trigger] walk(m, s, ec, ee as nat) by {
                if walk(m, s, ec, ee as nat) {
                    lemma_bfs_reach(m, visited@, lab, queue@, s, 100, ec, ee as nat);
                    assert(!queued(queue@, ec));
                }
            }
        }
    }
    0
}
}

} // verus!
