//! Choosing tunnels that join the regions a map must connect: the cheapest
//! candidate tunnels first, each kept only when it joins regions not yet
//! joined (a greedy Steiner tree over the required regions).

use vstd::prelude::*;
use crate::connectivity::TunnelEdge;
use crate::graph::{linked, lemma_linked_refl, lemma_linked_mono, forest, root, lemma_root, find_root, merged_rank, lemma_union,
    roots_match, same_links, lemma_join, lemma_redundant_edge, lemma_same_links_push};

verus! {

/// The regions each tunnel joins.
pub open spec fn pairs(es: Seq<TunnelEdge>) -> Seq<(usize, usize)> {
    es.map_values(|e: TunnelEdge| (e.region_a, e.region_b))
}

/// The tunnel starts or ends at a required region.
pub open spec fn touches(e: TunnelEdge, required: Seq<usize>) -> bool {
    required.contains(e.region_a) || required.contains(e.region_b)
}

/// The tunnels that start or end at a required region, in order.
pub open spec fn touching(es: Seq<TunnelEdge>, required: Seq<usize>) -> Seq<TunnelEdge>
    decreases es.len(),
{
    if es.len() == 0 {
        Seq::empty()
    } else {
        let rest = touching(es.drop_last(), required);
        if touches(es.last(), required) {
            rest.push(es.last())
        } else {
            rest
        }
    }
}

/// Costs never fall along the sequence.
pub open spec fn cost_sorted(es: Seq<TunnelEdge>) -> bool {
    forall|i: int, j: int| 0 <= i < j < es.len() ==> (#[trigger] es[i]).cost <= (#[trigger] es[j]).cost
}

/// Every tunnel of `a` is one of `b`.
pub open spec fn within(a: Seq<TunnelEdge>, b: Seq<TunnelEdge>) -> bool {
    forall|k: int| 0 <= k < a.len() ==> b.contains(#[trigger] a[k])
}

/// The tunnels' regions are below `n`.
pub open spec fn regions_below(es: Seq<TunnelEdge>, n: int) -> bool {
    forall|k: int| 0 <= k < es.len() ==> (#[trigger] es[k]).region_a < n && es[k].region_b < n
}

/// The tunnels sorted by cost; equal costs keep their order.
pub fn sort_by_cost(edges: &Vec<TunnelEdge>) -> (sorted: Vec<TunnelEdge>)
    ensures
        sorted@.len() == edges@.len(),
        cost_sorted(sorted@),
        within(sorted@, edges@),
        within(edges@, sorted@),
{
    let mut sorted: Vec<TunnelEdge> = Vec::new();
    let mut i: usize = 0;
    while i < edges.len()
        invariant
            i <= edges@.len(),
            sorted@.len() == i,
            cost_sorted(sorted@),
            within(sorted@, edges@),
            within(edges@.take(i as int), sorted@),
        decreases edges@.len() - i,
    {
        let e = edges[i];
        let mut pos: usize = sorted.len();
        while pos > 0 && sorted[pos - 1].cost > e.cost
            invariant
                pos <= sorted@.len(),
                cost_sorted(sorted@),
                forall|k: int| pos <= k < sorted@.len() ==> (#[trigger] sorted@[k]).cost > e.cost,
            decreases pos,
        {
            pos = pos - 1;
        }
        let ghost before = sorted@;
        sorted.insert(pos, e);
        proof {
            assert(sorted@ == before.insert(pos as int, e));
            assert forall|a: int, b: int| 0 <= a < b < sorted@.len() implies (#[trigger] sorted@[a]).cost <= (#[trigger] sorted@[b]).cost by {
                if a < pos && b < pos {
                    assert(sorted@[a] == before[a] && sorted@[b] == before[b]);
                } else if a < pos && b == pos {
                    assert(sorted@[a] == before[a]);
                    if pos > 0 {
                        assert(before[pos - 1].cost <= e.cost);
                        assert(before[a].cost <= before[pos - 1].cost || a == pos - 1);
                    }
                } else if a < pos {
                    assert(sorted@[a] == before[a] && sorted@[b] == before[b - 1]);
                } else if a == pos {
                    assert(sorted@[b] == before[b - 1]);
                } else {
                    assert(sorted@[a] == before[a - 1] && sorted@[b] == before[b - 1]);
                }
            }
            assert forall|k: int| 0 <= k < sorted@.len() implies edges@.contains(#[trigger] sorted@[k]) by {
                if k < pos {
                    assert(sorted@[k] == before[k]);
                } else if k == pos {
                    assert(edges@[i as int] == e);
                } else {
                    assert(sorted@[k] == before[k - 1]);
                }
            }
            assert forall|k: int| 0 <= k < i + 1 implies sorted@.contains(#[trigger] edges@.take(i + 1)[k]) by {
                if k < i {
                    assert(edges@.take(i + 1)[k] == edges@.take(i as int)[k]);
                    let m = choose|m: int| 0 <= m < before.len() && before[m] == edges@.take(i as int)[k];
                    if m < pos {
                        assert(sorted@[m] == before[m]);
                    } else {
                        assert(sorted@[m + 1] == before[m]);
                    }
                } else {
                    assert(sorted@[pos as int] == e);
                }
            }
        }
        i = i + 1;
    }
    proof {
        assert(edges@.take(edges@.len() as int) =~= edges@);
    }
    sorted
}

/// Whether the list holds the region.
fn holds(required: &Vec<usize>, r: usize) -> (b: bool)
    ensures
        b == required@.contains(r),
{
    let mut k: usize = 0;
    while k < required.len()
        invariant
            k <= required@.len(),
            forall|j: int| 0 <= j < k ==> required@[j] != r,
        decreases required@.len() - k,
    {
        if required[k] == r {
            return true;
        }
        k = k + 1;
    }
    false
}

/// Every two required regions are linked by the edges.
pub open spec fn joins_required(es: Seq<(usize, usize)>, required: Seq<usize>) -> bool {
    forall|i: int, j: int| 0 <= i < required.len() && 0 <= j < required.len() ==> #[trigger] linked(
        es,
        required[i] as int,
        required[j] as int,
    )
}

/// Two lists of edges link the same pairs of required regions.
pub open spec fn link_required_alike(es: Seq<(usize, usize)>, fs: Seq<(usize, usize)>, required: Seq<usize>) -> bool {
    forall|i: int, j: int| 0 <= i < required.len() && 0 <= j < required.len() ==> (#[trigger] linked(
        es,
        required[i] as int,
        required[j] as int,
    ) <==> linked(fs, required[i] as int, required[j] as int))
}

/// No tunnel joins regions that the tunnels before it already join.
pub open spec fn loop_free(sel: Seq<TunnelEdge>) -> bool {
    forall|j: int| 0 <= j < sel.len() ==> !linked(
        pairs(sel.take(j)),
        (#[trigger] sel[j]).region_a as int,
        sel[j].region_b as int,
    )
}

/// What holds once the first `k` tunnels in cost order were looked at: the
/// forest's roots match what the kept tunnels link, which is what the
/// touching tunnels looked at link; the kept tunnels touch required
/// regions, come in cost order, cost no more than any tunnel still ahead,
/// and close no loop.
#[verifier::opaque]
spec fn greedy_state(
    parent: Seq<usize>,
    rank: Seq<nat>,
    sel: Seq<TunnelEdge>,
    proc: Seq<(usize, usize)>,
    sorted: Seq<TunnelEdge>,
    k: int,
    required: Seq<usize>,
    n: int,
) -> bool {
    &&& 0 <= k <= sorted.len()
    &&& roots_match(parent, rank, sel.len() as nat, pairs(sel), n)
    &&& same_links(pairs(sel), proc, n)
    &&& proc == pairs(touching(sorted.take(k), required))
    &&& within(sel, sorted)
    &&& forall|j: int| 0 <= j < sel.len() ==> touches(#[trigger] sel[j], required)
    &&& cost_sorted(sel)
    &&& forall|j: int, m: int| 0 <= j < sel.len() && k <= m < sorted.len() ==> (#[trigger] sel[j]).cost <= (#[trigger] sorted[m]).cost
    &&& loop_free(sel)
}

/// The pairs of a list with one more tunnel.
proof fn lemma_pairs_push(es: Seq<TunnelEdge>, e: TunnelEdge)
    ensures
        pairs(es.push(e)) == pairs(es).push((e.region_a, e.region_b)),
{
    assert(pairs(es.push(e)) =~= pairs(es).push((e.region_a, e.region_b)));
}

/// The touching tunnels among the first `k + 1`.
proof fn lemma_touching_step(sorted: Seq<TunnelEdge>, k: int, required: Seq<usize>)
    requires
        0 <= k < sorted.len(),
    ensures
        touching(sorted.take(k + 1), required) == (if touches(sorted[k], required) {
            touching(sorted.take(k), required).push(sorted[k])
        } else {
            touching(sorted.take(k), required)
        }),
{
    assert(sorted.take(k + 1).drop_last() =~= sorted.take(k));
    assert(sorted.take(k + 1).last() == sorted[k]);
}

/// Before any tunnel is looked at, every region is its own root.
proof fn lemma_greedy_init(parent: Seq<usize>, rank: Seq<nat>, sorted: Seq<TunnelEdge>, required: Seq<usize>, n: int)
    requires
        parent.len() == n,
        rank == Seq::new(n as nat, |y: int| 0nat),
        forall|y: int| 0 <= y < n ==> parent[y] == y,
    ensures
        forest(parent, rank, n, 0),
        greedy_state(parent, rank, Seq::empty(), Seq::empty(), sorted, 0, required, n),
{
    reveal(greedy_state);
    let none: Seq<TunnelEdge> = Seq::empty();
    assert(pairs(none) =~= Seq::<(usize, usize)>::empty());
    assert forall|x: int, y: int| 0 <= x < n && 0 <= y < n implies (root(parent, rank, 0, x) == root(parent, rank, 0, y)
        <==> #[trigger] linked(pairs(none), x, y)) by {
        if linked(pairs(none), x, y) {
            let p = choose|p: Seq<int>| #[trigger] crate::graph::is_walk(pairs(none), p) && p[0] == x && p[p.len() - 1] == y;
            if p.len() > 1 {
                assert(crate::graph::joins(pairs(none), p[0], p[1]));
            }
        }
        if x == y {
            lemma_linked_refl(pairs(none), x);
        }
    }
    assert(sorted.take(0) =~= Seq::<TunnelEdge>::empty());
    assert(touching(sorted.take(0), required) =~= Seq::<TunnelEdge>::empty());
    assert forall|j: int| 0 <= j < none.len() implies !linked(
        pairs(none.take(j)),
        (#[trigger] none[j]).region_a as int,
        none[j].region_b as int,
    ) by {}
}

/// Keeping a touching tunnel whose ends lie in different trees: hang one
/// root below the other.
proof fn lemma_greedy_keep(
    parent: Seq<usize>,
    rank: Seq<nat>,
    sel: Seq<TunnelEdge>,
    proc: Seq<(usize, usize)>,
    sorted: Seq<TunnelEdge>,
    k: int,
    required: Seq<usize>,
    n: int,
    ra: int,
    rb: int,
)
    requires
        greedy_state(parent, rank, sel, proc, sorted, k, required, n),
        forest(parent, rank, n, sel.len() as nat),
        cost_sorted(sorted),
        0 <= k < sorted.len(),
        sorted[k].region_a < n,
        sorted[k].region_b < n,
        touches(sorted[k], required),
        ra == root(parent, rank, sel.len() as nat, sorted[k].region_a as int),
        rb == root(parent, rank, sel.len() as nat, sorted[k].region_b as int),
        ra != rb,
    ensures
        forest(parent.update(ra, rb as usize), rank.update(rb, merged_rank(rank, ra, rb)), n, (sel.len() + 1) as nat),
        greedy_state(
            parent.update(ra, rb as usize),
            rank.update(rb, merged_rank(rank, ra, rb)),
            sel.push(sorted[k]),
            proc.push((sorted[k].region_a, sorted[k].region_b)),
            sorted,
            k + 1,
            required,
            n,
        ),
{
    reveal(greedy_state);
    let e = sorted[k];
    let bound = sel.len() as nat;
    let a = e.region_a as int;
    let b = e.region_b as int;
    let new_sel = sel.push(e);
    lemma_root(parent, rank, bound, a);
    lemma_root(parent, rank, bound, b);
    lemma_union(parent, rank, bound, ra, rb, a);
    lemma_join(parent, rank, bound, pairs(sel), n, e.region_a, e.region_b);
    lemma_pairs_push(sel, e);
    lemma_same_links_push(pairs(sel), proc, (e.region_a, e.region_b), n);
    lemma_touching_step(sorted, k, required);
    lemma_pairs_push(touching(sorted.take(k), required), e);
    assert(roots_match(parent.update(ra, rb as usize), rank.update(rb, merged_rank(rank, ra, rb)), bound + 1, pairs(new_sel), n));
    assert(!linked(pairs(sel), a, b));
    assert forall|j: int| 0 <= j < new_sel.len() implies !linked(
        pairs(new_sel.take(j)),
        (#[trigger] new_sel[j]).region_a as int,
        new_sel[j].region_b as int,
    ) by {
        if j < sel.len() {
            assert(new_sel.take(j) =~= sel.take(j));
            assert(new_sel[j] == sel[j]);
        } else {
            assert(new_sel.take(j) =~= sel);
        }
    }
    assert forall|j: int| 0 <= j < new_sel.len() implies sorted.contains(#[trigger] new_sel[j]) by {
        if j < sel.len() {
            assert(new_sel[j] == sel[j]);
        } else {
            assert(sorted[k] == e);
        }
    }
    assert forall|j: int| 0 <= j < new_sel.len() implies touches(#[trigger] new_sel[j], required) by {
        if j < sel.len() {
            assert(new_sel[j] == sel[j]);
        }
    }
    assert forall|i: int, j: int| 0 <= i < j < new_sel.len() implies (#[trigger] new_sel[i]).cost <= (
    #[trigger] new_sel[j]).cost by {
        assert(new_sel[i] == sel[i]);
        if j < sel.len() {
            assert(new_sel[j] == sel[j]);
        } else {
            assert(sel[i].cost <= sorted[k].cost);
        }
    }
    assert forall|j: int, m: int| 0 <= j < new_sel.len() && k + 1 <= m < sorted.len() implies (
    #[trigger] new_sel[j]).cost <= (#[trigger] sorted[m]).cost by {
        if j < sel.len() {
            assert(new_sel[j] == sel[j]);
        } else {
            assert(sorted[k].cost <= sorted[m].cost);
        }
    }
}

/// Passing over a touching tunnel whose ends the kept tunnels already join.
proof fn lemma_greedy_skip(
    parent: Seq<usize>,
    rank: Seq<nat>,
    sel: Seq<TunnelEdge>,
    proc: Seq<(usize, usize)>,
    sorted: Seq<TunnelEdge>,
    k: int,
    required: Seq<usize>,
    n: int,
)
    requires
        greedy_state(parent, rank, sel, proc, sorted, k, required, n),
        0 <= k < sorted.len(),
        sorted[k].region_a < n,
        sorted[k].region_b < n,
        touches(sorted[k], required),
        root(parent, rank, sel.len() as nat, sorted[k].region_a as int) == root(
            parent,
            rank,
            sel.len() as nat,
            sorted[k].region_b as int,
        ),
    ensures
        greedy_state(parent, rank, sel, proc.push((sorted[k].region_a, sorted[k].region_b)), sorted, k + 1, required, n),
{
    reveal(greedy_state);
    let e = sorted[k];
    let pe = (e.region_a, e.region_b);
    assert(linked(pairs(sel), e.region_a as int, e.region_b as int));
    assert(linked(proc, e.region_a as int, e.region_b as int));
    lemma_redundant_edge(proc, pe);
    lemma_touching_step(sorted, k, required);
    lemma_pairs_push(touching(sorted.take(k), required), e);
    assert forall|x: int, y: int| 0 <= x < n && 0 <= y < n implies (#[trigger] linked(pairs(sel), x, y) <==> linked(
        proc.push(pe),
        x,
        y,
    )) by {
        assert(linked(proc.push(pe), x, y) <==> linked(proc, x, y));
    }
}

/// Passing over a tunnel that touches no required region.
proof fn lemma_greedy_pass(
    parent: Seq<usize>,
    rank: Seq<nat>,
    sel: Seq<TunnelEdge>,
    proc: Seq<(usize, usize)>,
    sorted: Seq<TunnelEdge>,
    k: int,
    required: Seq<usize>,
    n: int,
)
    requires
        greedy_state(parent, rank, sel, proc, sorted, k, required, n),
        0 <= k < sorted.len(),
        !touches(sorted[k], required),
    ensures
        greedy_state(parent, rank, sel, proc, sorted, k + 1, required, n),
{
    reveal(greedy_state);
    lemma_touching_step(sorted, k, required);
}

/// When every required region has the same root, the kept tunnels join
/// them all.
proof fn lemma_greedy_joined(
    parent: Seq<usize>,
    rank: Seq<nat>,
    sel: Seq<TunnelEdge>,
    proc: Seq<(usize, usize)>,
    sorted: Seq<TunnelEdge>,
    k: int,
    required: Seq<usize>,
    n: int,
)
    requires
        greedy_state(parent, rank, sel, proc, sorted, k, required, n),
        required.len() >= 1,
        forall|q: int| 0 <= q < required.len() ==> (#[trigger] required[q]) < n,
        forall|q: int| 0 <= q < required.len() ==> root(parent, rank, sel.len() as nat, (#[trigger] required[q]) as int) == root(
            parent,
            rank,
            sel.len() as nat,
            required[0] as int,
        ),
    ensures
        joins_required(pairs(sel), required),
{
    reveal(greedy_state);
    assert forall|i: int, j: int| 0 <= i < required.len() && 0 <= j < required.len() implies #[trigger] linked(
        pairs(sel),
        required[i] as int,
        required[j] as int,
    ) by {
        assert(root(parent, rank, sel.len() as nat, required[i] as int) == root(parent, rank, sel.len() as nat, required[0] as int));
        assert(root(parent, rank, sel.len() as nat, required[j] as int) == root(parent, rank, sel.len() as nat, required[0] as int));
    }
}

/// Once the loop stops, the kept tunnels join two required regions exactly
/// when the touching tunnels do.
proof fn lemma_greedy_result(
    parent: Seq<usize>,
    rank: Seq<nat>,
    sel: Seq<TunnelEdge>,
    proc: Seq<(usize, usize)>,
    sorted: Seq<TunnelEdge>,
    k: int,
    required: Seq<usize>,
    n: int,
    edges: Seq<TunnelEdge>,
    done: bool,
)
    requires
        greedy_state(parent, rank, sel, proc, sorted, k, required, n),
        within(sorted, edges),
        within(edges, sorted),
        forall|q: int| 0 <= q < required.len() ==> (#[trigger] required[q]) < n,
        done ==> joins_required(pairs(sel), required),
        !done ==> k == sorted.len(),
    ensures
        within(sel, edges),
        forall|j: int| 0 <= j < sel.len() ==> touches(#[trigger] sel[j], required),
        cost_sorted(sel),
        loop_free(sel),
        link_required_alike(pairs(sel), pairs(touching(edges, required)), required),
{
    reveal(greedy_state);
    let all_t = pairs(touching(edges, required));
    let sorted_t = pairs(touching(sorted, required));
    assert forall|j: int| 0 <= j < sel.len() implies edges.contains(#[trigger] sel[j]) by {
        assert(sorted.contains(sel[j]));
        let m = choose|m: int| 0 <= m < sorted.len() && sorted[m] == sel[j];
        assert(edges.contains(sorted[m]));
    }
    lemma_touching_within(edges, sorted, required);
    lemma_pairs_within(sel, touching(edges, required), required, edges);
    assert forall|i: int, j: int| 0 <= i < required.len() && 0 <= j < required.len() implies (#[trigger] linked(
        pairs(sel),
        required[i] as int,
        required[j] as int,
    ) <==> linked(all_t, required[i] as int, required[j] as int)) by {
        let a = required[i] as int;
        let b = required[j] as int;
        if linked(pairs(sel), a, b) {
            lemma_linked_mono(pairs(sel), all_t, a, b);
        }
        if !done && linked(all_t, a, b) {
            assert(sorted.take(k) =~= sorted);
            lemma_linked_mono(all_t, sorted_t, a, b);
            assert(linked(proc, a, b));
        }
    }
}

/// Whether every required region has the root of the first.
fn all_joined(parent: &Vec<usize>, required: &Vec<usize>, Ghost(rank): Ghost<Seq<nat>>, Ghost(bound): Ghost<nat>) -> (b: bool)
    requires
        forest(parent@, rank, parent@.len() as int, bound),
        required@.len() >= 1,
        forall|q: int| 0 <= q < required@.len() ==> (#[trigger] required@[q]) < parent@.len(),
    ensures
        b == forall|q: int| 0 <= q < required@.len() ==> root(parent@, rank, bound, (#[trigger] required@[q]) as int) == root(
            parent@,
            rank,
            bound,
            required@[0] as int,
        ),
{
    let r0 = find_root(parent, required[0], Ghost(rank), Ghost(bound));
    let mut j: usize = 1;
    while j < required.len()
        invariant
            1 <= j <= required@.len(),
            forest(parent@, rank, parent@.len() as int, bound),
            forall|q: int| 0 <= q < required@.len() ==> (#[trigger] required@[q]) < parent@.len(),
            r0 == root(parent@, rank, bound, required@[0] as int),
            forall|q: int| 0 <= q < j ==> root(parent@, rank, bound, (#[trigger] required@[q]) as int) == r0,
        decreases required@.len() - j,
    {
        let rj = find_root(parent, required[j], Ghost(rank), Ghost(bound));
        if rj != r0 {
            assert(root(parent@, rank, bound, required@[j as int] as int) != r0);
            return false;
        }
        j = j + 1;
    }
    true
}

/// `s` holds the tunnels of `edges` in order of cost.
pub open spec fn cost_order_of(s: Seq<TunnelEdge>, edges: Seq<TunnelEdge>) -> bool {
    &&& s.len() == edges.len()
    &&& cost_sorted(s)
    &&& within(s, edges)
    &&& within(edges, s)
}

/// The tunnels the greedy pass keeps from `es`, taken in order: once the kept
/// tunnels join every required region nothing more is kept; before that a
/// tunnel is kept when it touches a required region and joins regions the
/// kept tunnels do not yet link.
pub open spec fn greedy_kept(es: Seq<TunnelEdge>, required: Seq<usize>) -> Seq<TunnelEdge>
    decreases es.len(),
{
    if es.len() == 0 {
        Seq::empty()
    } else {
        let prev = greedy_kept(es.drop_last(), required);
        let e = es.last();
        if joins_required(pairs(prev), required) {
            prev
        } else if touches(e, required) && !linked(pairs(prev), e.region_a as int, e.region_b as int) {
            prev.push(e)
        } else {
            prev
        }
    }
}

/// Once the kept tunnels join every required region, later tunnels change
/// nothing.
proof fn lemma_greedy_kept_stays(es: Seq<TunnelEdge>, required: Seq<usize>, k: int, m: int)
    requires
        0 <= k <= m <= es.len(),
        joins_required(pairs(greedy_kept(es.take(k), required)), required),
    ensures
        greedy_kept(es.take(m), required) == greedy_kept(es.take(k), required),
    decreases m - k,
{
    if m > k {
        lemma_greedy_kept_stays(es, required, k, m - 1);
        assert(es.take(m).drop_last() =~= es.take(m - 1));
    }
}

/// The forest's roots agree exactly where the kept tunnels link.
proof fn lemma_greedy_roots(
    parent: Seq<usize>,
    rank: Seq<nat>,
    sel: Seq<TunnelEdge>,
    proc: Seq<(usize, usize)>,
    sorted: Seq<TunnelEdge>,
    k: int,
    required: Seq<usize>,
    n: int,
    x: int,
    y: int,
)
    requires
        greedy_state(parent, rank, sel, proc, sorted, k, required, n),
        0 <= x < n,
        0 <= y < n,
    ensures
        (root(parent, rank, sel.len() as nat, x) == root(parent, rank, sel.len() as nat, y)) <==> linked(pairs(sel), x, y),
{
    reveal(greedy_state);
}

/// When some required region's root differs from the first one's, the kept
/// tunnels do not join every required region.
proof fn lemma_greedy_not_joined(
    parent: Seq<usize>,
    rank: Seq<nat>,
    sel: Seq<TunnelEdge>,
    proc: Seq<(usize, usize)>,
    sorted: Seq<TunnelEdge>,
    k: int,
    required: Seq<usize>,
    n: int,
)
    requires
        greedy_state(parent, rank, sel, proc, sorted, k, required, n),
        required.len() >= 1,
        forall|q: int| 0 <= q < required.len() ==> (#[trigger] required[q]) < n,
        !(forall|q: int| 0 <= q < required.len() ==> root(parent, rank, sel.len() as nat, (#[trigger] required[q]) as int) == root(
            parent,
            rank,
            sel.len() as nat,
            required[0] as int,
        )),
    ensures
        !joins_required(pairs(sel), required),
{
    let q = choose|q: int| 0 <= q < required.len() && root(parent, rank, sel.len() as nat, (#[trigger] required[q]) as int) != root(
        parent,
        rank,
        sel.len() as nat,
        required[0] as int,
    );
    lemma_greedy_roots(parent, rank, sel, proc, sorted, k, required, n, required[q] as int, required[0] as int);
    assert(!linked(pairs(sel), required[q] as int, required[0] as int));
}

/// Connect the required regions with the cheapest tunnels: the tunnels
/// that start or end at a required region are taken in order of cost, and
/// each is kept when it joins regions not yet joined by those kept before,
/// until every required region is joined to the others. With at most one
/// required region nothing is kept. The kept tunnels touch required
/// regions, come in order of cost, close no loop, and join two required
/// regions exactly when the tunnels touching required regions join them.
pub fn connect_required_regions(region_count: usize, edges: &Vec<TunnelEdge>, required: &Vec<usize>) -> (selected: Vec<
    TunnelEdge,
>)
    requires
        regions_below(edges@, region_count as int),
        forall|k: int| 0 <= k < required@.len() ==> (#[trigger] required@[k]) < region_count,
        required@.no_duplicates(),
    ensures
        required@.len() <= 1 ==> selected@.len() == 0,
        within(selected@, edges@),
        forall|k: int| 0 <= k < selected@.len() ==> touches(#[trigger] selected@[k], required@),
        cost_sorted(selected@),
        loop_free(selected@),
        link_required_alike(pairs(selected@), pairs(touching(edges@, required@)), required@),
        required@.len() >= 2 ==> exists|s: Seq<TunnelEdge>| cost_order_of(s, edges@) && selected@ == #[trigger] greedy_kept(
            s,
            required@,
        ),
{
    let mut selected: Vec<TunnelEdge> = Vec::new();
    if required.len() <= 1 {
        proof {
            let t = pairs(touching(edges@, required@));
            assert forall|i: int, j: int| 0 <= i < required@.len() && 0 <= j < required@.len() implies (#[trigger] linked(
                pairs(selected@),
                required@[i] as int,
                required@[j] as int,
            ) <==> linked(t, required@[i] as int, required@[j] as int)) by {
                lemma_linked_refl(pairs(selected@), required@[i] as int);
                lemma_linked_refl(t, required@[i] as int);
            }
        }
        return selected;
    }
    let n = region_count;
    let sorted = sort_by_cost(edges);
    let mut parent: Vec<usize> = Vec::new();
    let mut i: usize = 0;
    while i < n
        invariant
            i <= n,
            parent@.len() == i,
            forall|y: int| 0 <= y < i ==> parent@[y] == y,
        decreases n - i,
    {
        parent.push(i);
        i = i + 1;
    }
    let ghost mut rank: Seq<nat> = Seq::new(n as nat, |y: int| 0nat);
    let ghost mut proc: Seq<(usize, usize)> = Seq::empty();
    proof {
        lemma_greedy_init(parent@, rank, sorted@, required@, n as int);
        assert(selected@ =~= Seq::<TunnelEdge>::empty());
        assert(pairs(selected@) =~= Seq::<(usize, usize)>::empty());
        let r0 = required@[0] as int;
        let r1 = required@[1] as int;
        assert(r0 != r1);
        if linked(pairs(selected@), r0, r1) {
            let p = choose|p: Seq<int>| #[trigger] crate::graph::is_walk(pairs(selected@), p) && p[0] == r0 && p[p.len() - 1] == r1;
            if p.len() > 1 {
                assert(crate::graph::joins(pairs(selected@), p[0], p[1]));
            }
        }
        assert(!linked(pairs(selected@), r0, r1));
        assert(sorted@.take(0) =~= Seq::<TunnelEdge>::empty());
    }
    let mut done = false;
    let mut k: usize = 0;
    while k < sorted.len() && !done
        invariant
            n == region_count,
            sorted@.len() == edges@.len(),
            cost_sorted(sorted@),
            within(sorted@, edges@),
            within(edges@, sorted@),
            regions_below(edges@, n as int),
            forall|j: int| 0 <= j < required@.len() ==> (#[trigger] required@[j]) < n,
            required@.len() >= 2,
            k <= sorted@.len(),
            forest(parent@, rank, n as int, selected@.len() as nat),
            greedy_state(parent@, rank, selected@, proc, sorted@, k as int, required@, n as int),
            done <==> joins_required(pairs(selected@), required@),
            selected@ == greedy_kept(sorted@.take(k as int), required@),
        decreases sorted@.len() - k,
    {
        let e = sorted[k];
        proof {
            assert(edges@.contains(e));
            let m = choose|m: int| 0 <= m < edges@.len() && edges@[m] == e;
            assert(e.region_a < n && e.region_b < n);
        }
        let in_a = holds(required, e.region_a);
        let in_b = holds(required, e.region_b);
        let ghost prev = selected@;
        proof {
            assert(sorted@.take(k + 1).drop_last() =~= sorted@.take(k as int));
            assert(sorted@.take(k + 1).last() == e);
        }
        if in_a || in_b {
            let ghost bound = selected@.len() as nat;
            let ra = find_root(&parent, e.region_a, Ghost(rank), Ghost(bound));
            let rb = find_root(&parent, e.region_b, Ghost(rank), Ghost(bound));
            if ra != rb {
                proof {
                    lemma_greedy_roots(parent@, rank, selected@, proc, sorted@, k as int, required@, n as int, e.region_a as int, e.region_b as int);
                    assert(greedy_kept(sorted@.take(k + 1), required@) == prev.push(e));
                    lemma_greedy_keep(parent@, rank, selected@, proc, sorted@, k as int, required@, n as int, ra as int, rb as int);
                    rank = rank.update(rb as int, merged_rank(rank, ra as int, rb as int));
                    proc = proc.push((e.region_a, e.region_b));
                }
                parent.set(ra, rb);
                selected.push(e);
                let joined = all_joined(&parent, required, Ghost(rank), Ghost(selected@.len() as nat));
                if joined {
                    proof {
                        lemma_greedy_joined(parent@, rank, selected@, proc, sorted@, k + 1, required@, n as int);
                    }
                    done = true;
                } else {
                    proof {
                        lemma_greedy_not_joined(parent@, rank, selected@, proc, sorted@, k + 1, required@, n as int);
                    }
                }
            } else {
                proof {
                    lemma_greedy_roots(parent@, rank, selected@, proc, sorted@, k as int, required@, n as int, e.region_a as int, e.region_b as int);
                    lemma_greedy_skip(parent@, rank, selected@, proc, sorted@, k as int, required@, n as int);
                    proc = proc.push((e.region_a, e.region_b));
                }
            }
        } else {
            proof {
                lemma_greedy_pass(parent@, rank, selected@, proc, sorted@, k as int, required@, n as int);
            }
        }
        k = k + 1;
    }
    proof {
        lemma_greedy_result(parent@, rank, selected@, proc, sorted@, k as int, required@, n as int, edges@, done);
        if done {
            lemma_greedy_kept_stays(sorted@, required@, k as int, sorted@.len() as int);
        }
        assert(sorted@.take(sorted@.len() as int) =~= sorted@);
        assert(cost_order_of(sorted@, edges@));
    }
    selected
}

/// The touching tunnels of one list lie among those of another that holds
/// all its tunnels, and so do their region pairs.
proof fn lemma_touching_within(a: Seq<TunnelEdge>, b: Seq<TunnelEdge>, required: Seq<usize>)
    requires
        within(a, b),
    ensures
        forall|k: int| 0 <= k < pairs(touching(a, required)).len() ==> pairs(touching(b, required)).contains(
            #[trigger] pairs(touching(a, required))[k],
        ),
{
    lemma_touching_members(a, required);
    lemma_touching_members(b, required);
    assert forall|k: int| 0 <= k < pairs(touching(a, required)).len() implies pairs(touching(b, required)).contains(
        #[trigger] pairs(touching(a, required))[k],
    ) by {
        let e = touching(a, required)[k];
        assert(touching(a, required).contains(e));
        assert(a.contains(e) && touches(e, required));
        let m = choose|m: int| 0 <= m < a.len() && a[m] == e;
        assert(b.contains(a[m]));
        assert(touching(b, required).contains(e));
        let t = choose|t: int| 0 <= t < touching(b, required).len() && touching(b, required)[t] == e;
        assert(pairs(touching(b, required))[t] == (e.region_a, e.region_b));
    }
}

/// The touching tunnels are exactly the list's tunnels that touch.
proof fn lemma_touching_members(a: Seq<TunnelEdge>, required: Seq<usize>)
    ensures
        forall|e: TunnelEdge| #[trigger] touching(a, required).contains(e) <==> (a.contains(e) && touches(e, required)),
    decreases a.len(),
{
    if a.len() == 0 {
        assert(touching(a, required) =~= Seq::<TunnelEdge>::empty());
    } else {
        let d = a.drop_last();
        let last = a.last();
        let t = touching(d, required);
        lemma_touching_members(d, required);
        assert forall|e: TunnelEdge| #[trigger] touching(a, required).contains(e) <==> (a.contains(e) && touches(
            e,
            required,
        )) by {
            if a.contains(e) {
                let m = choose|m: int| 0 <= m < a.len() && a[m] == e;
                if m < a.len() - 1 {
                    assert(d[m] == e);
                    assert(d.contains(e));
                } else {
                    assert(e == last);
                }
            }
            if d.contains(e) {
                let m = choose|m: int| 0 <= m < d.len() && d[m] == e;
                assert(a[m] == e);
            }
            assert(a[a.len() - 1] == last);
            if touches(last, required) {
                let t2 = t.push(last);
                assert(touching(a, required) == t2);
                if t.contains(e) {
                    let m = choose|m: int| 0 <= m < t.len() && t[m] == e;
                    assert(t2[m] == e);
                }
                if t2.contains(e) {
                    let m = choose|m: int| 0 <= m < t2.len() && t2[m] == e;
                    if m < t.len() {
                        assert(t[m] == e);
                    }
                }
                assert(t2[t.len() as int] == last);
            } else {
                assert(touching(a, required) == t);
            }
        }
    }
}

/// The kept tunnels' pairs lie among those of the touching tunnels.
proof fn lemma_pairs_within(sel: Seq<TunnelEdge>, t: Seq<TunnelEdge>, required: Seq<usize>, edges: Seq<TunnelEdge>)
    requires
        within(sel, edges),
        forall|k: int| 0 <= k < sel.len() ==> touches(#[trigger] sel[k], required),
        t == touching(edges, required),
    ensures
        forall|k: int| 0 <= k < pairs(sel).len() ==> pairs(t).contains(#[trigger] pairs(sel)[k]),
{
    lemma_touching_members(edges, required);
    assert forall|k: int| 0 <= k < pairs(sel).len() implies pairs(t).contains(#[trigger] pairs(sel)[k]) by {
        let e = sel[k];
        assert(edges.contains(e));
        assert(t.contains(e));
        let m = choose|m: int| 0 <= m < t.len() && t[m] == e;
        assert(pairs(t)[m] == (e.region_a, e.region_b));
    }
}

} // verus!
