//! Links between numbered nodes: walks over a list of edges, and the
//! union-find forest that tracks which nodes the chosen edges join.

use vstd::prelude::*;

verus! {

/// Some edge of `es` joins `u` and `v`, in either direction.
pub open spec fn joins(es: Seq<(usize, usize)>, u: int, v: int) -> bool {
    exists|k: int| 0 <= k < es.len() && ((#[trigger] es[k]).0 == u && es[k].1 == v || es[k].0 == v && es[k].1 == u)
}

/// Consecutive nodes of `p` are joined by edges of `es`.
pub open spec fn is_walk(es: Seq<(usize, usize)>, p: Seq<int>) -> bool {
    &&& p.len() >= 1
    &&& forall|i: int| 0 <= i < p.len() - 1 ==> joins(es, #[trigger] p[i], p[i + 1])
}

/// A walk over the edges `es` leads from `a` to `b`.
pub open spec fn linked(es: Seq<(usize, usize)>, a: int, b: int) -> bool {
    exists|p: Seq<int>| #[trigger] is_walk(es, p) && p[0] == a && p[p.len() - 1] == b
}

/// Every node is linked to itself.
pub proof fn lemma_linked_refl(es: Seq<(usize, usize)>, a: int)
    ensures
        linked(es, a, a),
{
    let p = seq![a];
    assert(is_walk(es, p));
}

/// The two ends of an edge are linked.
pub proof fn lemma_linked_edge(es: Seq<(usize, usize)>, k: int)
    requires
        0 <= k < es.len(),
    ensures
        linked(es, es[k].0 as int, es[k].1 as int),
        linked(es, es[k].1 as int, es[k].0 as int),
{
    let p = seq![es[k].0 as int, es[k].1 as int];
    assert(joins(es, p[0], p[1]));
    assert(is_walk(es, p));
    let q = seq![es[k].1 as int, es[k].0 as int];
    assert(joins(es, q[0], q[1]));
    assert(is_walk(es, q));
}

/// Links run both ways.
pub proof fn lemma_linked_sym(es: Seq<(usize, usize)>, a: int, b: int)
    requires
        linked(es, a, b),
    ensures
        linked(es, b, a),
{
    let p = choose|p: Seq<int>| #[trigger] is_walk(es, p) && p[0] == a && p[p.len() - 1] == b;
    let q = p.reverse();
    assert forall|i: int| 0 <= i < q.len() - 1 implies joins(es, #[trigger] q[i], q[i + 1]) by {
        let j = p.len() - 2 - i;
        assert(q[i] == p[j + 1]);
        assert(q[i + 1] == p[j]);
        assert(joins(es, p[j], p[j + 1]));
        let k = choose|k: int| 0 <= k < es.len() && ((#[trigger] es[k]).0 == p[j] && es[k].1 == p[j + 1] || es[k].0 == p[j + 1]
            && es[k].1 == p[j]);
        assert(es[k].0 == q[i] && es[k].1 == q[i + 1] || es[k].0 == q[i + 1] && es[k].1 == q[i]);
    }
    assert(is_walk(es, q));
}

/// Links compose.
pub proof fn lemma_linked_trans(es: Seq<(usize, usize)>, a: int, b: int, c: int)
    requires
        linked(es, a, b),
        linked(es, b, c),
    ensures
        linked(es, a, c),
{
    let p = choose|p: Seq<int>| #[trigger] is_walk(es, p) && p[0] == a && p[p.len() - 1] == b;
    let q = choose|q: Seq<int>| #[trigger] is_walk(es, q) && q[0] == b && q[q.len() - 1] == c;
    let r = p + q.drop_first();
    assert forall|i: int| 0 <= i < r.len() - 1 implies joins(es, #[trigger] r[i], r[i + 1]) by {
        if i < p.len() - 1 {
            assert(r[i] == p[i] && r[i + 1] == p[i + 1]);
        } else {
            let j = i - (p.len() - 1);
            assert(r[i] == q[j]);
            assert(r[i + 1] == q[j + 1]);
            assert(joins(es, q[j], q[j + 1]));
        }
    }
    assert(is_walk(es, r));
    assert(r[r.len() - 1] == c);
}

/// Links over fewer edges are links over more.
pub proof fn lemma_linked_mono(es: Seq<(usize, usize)>, fs: Seq<(usize, usize)>, a: int, b: int)
    requires
        linked(es, a, b),
        forall|k: int| 0 <= k < es.len() ==> fs.contains(#[trigger] es[k]),
    ensures
        linked(fs, a, b),
{
    let p = choose|p: Seq<int>| #[trigger] is_walk(es, p) && p[0] == a && p[p.len() - 1] == b;
    assert forall|i: int| 0 <= i < p.len() - 1 implies joins(fs, #[trigger] p[i], p[i + 1]) by {
        assert(joins(es, p[i], p[i + 1]));
        let k = choose|k: int| 0 <= k < es.len() && ((#[trigger] es[k]).0 == p[i] && es[k].1 == p[i + 1] || es[k].0 == p[i + 1]
            && es[k].1 == p[i]);
        assert(fs.contains(es[k]));
        let m = choose|m: int| 0 <= m < fs.len() && fs[m] == es[k];
        assert(fs[m].0 == p[i] && fs[m].1 == p[i + 1] || fs[m].0 == p[i + 1] && fs[m].1 == p[i]);
    }
    assert(is_walk(fs, p));
}

/// What one more edge `(a, b)` links: what was linked, and what reaches
/// one end joined with what reaches from the other.
pub open spec fn linked_with(es: Seq<(usize, usize)>, a: int, b: int, x: int, y: int) -> bool {
    ||| linked(es, x, y)
    ||| (linked(es, x, a) && linked(es, b, y))
    ||| (linked(es, x, b) && linked(es, a, y))
}

/// One more edge links exactly what `linked_with` says.
pub proof fn lemma_linked_push(es: Seq<(usize, usize)>, e: (usize, usize), x: int, y: int)
    ensures
        linked(es.push(e), x, y) == linked_with(es, e.0 as int, e.1 as int, x, y),
{
    let fs = es.push(e);
    let a = e.0 as int;
    let b = e.1 as int;
    assert forall|k: int| 0 <= k < es.len() implies fs.contains(#[trigger] es[k]) by {
        assert(fs[k] == es[k]);
    }
    if linked_with(es, a, b, x, y) {
        lemma_linked_edge(fs, es.len() as int);
        assert(fs[es.len() as int] == e);
        if linked(es, x, y) {
            lemma_linked_mono(es, fs, x, y);
        } else if linked(es, x, a) && linked(es, b, y) {
            lemma_linked_mono(es, fs, x, a);
            lemma_linked_mono(es, fs, b, y);
            lemma_linked_trans(fs, x, a, b);
            lemma_linked_trans(fs, x, b, y);
        } else {
            lemma_linked_mono(es, fs, x, b);
            lemma_linked_mono(es, fs, a, y);
            lemma_linked_trans(fs, x, b, a);
            lemma_linked_trans(fs, x, a, y);
        }
    }
    if linked(fs, x, y) {
        let p = choose|p: Seq<int>| #[trigger] is_walk(fs, p) && p[0] == x && p[p.len() - 1] == y;
        lemma_walk_push(es, e, p);
    }
}

/// A walk over the edges with one more edge added links its ends as
/// `linked_with` says.
proof fn lemma_walk_push(es: Seq<(usize, usize)>, e: (usize, usize), p: Seq<int>)
    requires
        is_walk(es.push(e), p),
    ensures
        linked_with(es, e.0 as int, e.1 as int, p[0], p[p.len() - 1]),
    decreases p.len(),
{
    let fs = es.push(e);
    let a = e.0 as int;
    let b = e.1 as int;
    let x = p[0];
    if p.len() == 1 {
        lemma_linked_refl(es, x);
    } else {
        let q = p.drop_last();
        assert forall|i: int| 0 <= i < q.len() - 1 implies joins(fs, #[trigger] q[i], q[i + 1]) by {
            assert(q[i] == p[i] && q[i + 1] == p[i + 1]);
        }
        lemma_walk_push(es, e, q);
        let z = q[q.len() - 1];
        let y = p[p.len() - 1];
        assert(z == p[p.len() - 2]);
        assert(joins(fs, z, y));
        let k = choose|k: int| 0 <= k < fs.len() && ((#[trigger] fs[k]).0 == z && fs[k].1 == y || fs[k].0 == y && fs[k].1 == z);
        if k < es.len() {
            assert(fs[k] == es[k]);
            lemma_linked_edge(es, k);
            if linked(es, x, z) {
                lemma_linked_trans(es, x, z, y);
            } else if linked(es, x, a) && linked(es, b, z) {
                lemma_linked_trans(es, b, z, y);
            } else {
                lemma_linked_trans(es, a, z, y);
            }
        } else {
            assert(fs[k] == e);
            lemma_linked_refl(es, a);
            lemma_linked_refl(es, b);
            if z == a {
                assert(y == b);
                if linked(es, x, z) {
                } else if linked(es, x, a) && linked(es, b, z) {
                } else {
                    assert(linked(es, x, b));
                }
            } else {
                assert(z == b && y == a);
                if linked(es, x, z) {
                } else if linked(es, x, a) && linked(es, b, z) {
                    assert(linked(es, x, a));
                } else {
                }
            }
        }
    }
}

/// Parent links form a forest over `0..n`: every link points inside and to
/// a node of higher rank, and no rank exceeds `bound`.
pub open spec fn forest(parent: Seq<usize>, rank: Seq<nat>, n: int, bound: nat) -> bool {
    &&& parent.len() == n
    &&& rank.len() == n
    &&& forall|y: int| #![trigger parent[y]] #![trigger rank[y]] 0 <= y < n ==> {
        &&& parent[y] < n
        &&& rank[y] <= bound
        &&& (parent[y] != y ==> rank[parent[y] as int] > rank[y])
    }
}

/// The root of the tree holding `x`.
pub open spec fn root(parent: Seq<usize>, rank: Seq<nat>, bound: nat, x: int) -> int
    decreases bound - rank[x],
{
    if 0 <= x < parent.len() && parent[x] != x && parent[x] < parent.len() && rank[x] < rank[parent[x] as int] <= bound {
        root(parent, rank, bound, parent[x] as int)
    } else {
        x
    }
}

/// The root is in the forest and is a root.
pub proof fn lemma_root(parent: Seq<usize>, rank: Seq<nat>, bound: nat, x: int)
    requires
        forest(parent, rank, parent.len() as int, bound),
        0 <= x < parent.len(),
    ensures
        0 <= root(parent, rank, bound, x) < parent.len(),
        parent[root(parent, rank, bound, x)] == root(parent, rank, bound, x),
        parent[x] == x ==> root(parent, rank, bound, x) == x,
        root(parent, rank, bound, parent[x] as int) == root(parent, rank, bound, x),
    decreases bound - rank[x],
{
    if parent[x] != x {
        lemma_root(parent, rank, bound, parent[x] as int);
    }
}

/// The root of the tree holding `x`.
pub fn find_root(parent: &Vec<usize>, x: usize, Ghost(rank): Ghost<Seq<nat>>, Ghost(bound): Ghost<nat>) -> (r: usize)
    requires
        forest(parent@, rank, parent@.len() as int, bound),
        x < parent@.len(),
    ensures
        r < parent@.len(),
        r == root(parent@, rank, bound, x as int),
{
    proof {
        lemma_root(parent@, rank, bound, x as int);
    }
    let ghost target = root(parent@, rank, bound, x as int);
    let mut x = x;
    while parent[x] != x
        invariant
            forest(parent@, rank, parent@.len() as int, bound),
            x < parent@.len(),
            root(parent@, rank, bound, x as int) == target,
        decreases bound - rank[x as int],
    {
        proof {
            lemma_root(parent@, rank, bound, x as int);
            assert(rank[parent@[x as int] as int] > rank[x as int]);
            assert(rank[parent@[x as int] as int] <= bound);
        }
        x = parent[x];
    }
    x
}

/// The rank a root takes when another root is hung below it.
pub open spec fn merged_rank(rank: Seq<nat>, ra: int, rb: int) -> nat {
    if rank[rb] > rank[ra] + 1 { rank[rb] } else { (rank[ra] + 1) as nat }
}

/// Hanging root `ra` below root `rb` keeps a forest, one rank higher at
/// most, and sends everything below `ra` to `rb`.
pub proof fn lemma_union(parent: Seq<usize>, rank: Seq<nat>, bound: nat, ra: int, rb: int, x: int)
    requires
        forest(parent, rank, parent.len() as int, bound),
        0 <= ra < parent.len(),
        0 <= rb < parent.len(),
        parent[ra] == ra,
        parent[rb] == rb,
        ra != rb,
        0 <= x < parent.len(),
    ensures
        forest(parent.update(ra, rb as usize), rank.update(rb, merged_rank(rank, ra, rb)), parent.len() as int, bound + 1),
        root(parent.update(ra, rb as usize), rank.update(rb, merged_rank(rank, ra, rb)), bound + 1, x) == (if root(
            parent,
            rank,
            bound,
            x,
        ) == ra {
            rb
        } else {
            root(parent, rank, bound, x)
        }),
    decreases bound - rank[x],
{
    let p2 = parent.update(ra, rb as usize);
    let r2 = rank.update(rb, merged_rank(rank, ra, rb));
    let b2 = bound + 1;
    assert forall|y: int| #![trigger p2[y]] #![trigger r2[y]] 0 <= y < parent.len() implies {
        &&& p2[y] < parent.len()
        &&& r2[y] <= b2
        &&& (p2[y] != y ==> r2[p2[y] as int] > r2[y])
    } by {
        assert(parent[y] < parent.len());
        if y == ra {
        } else if parent[y] != y {
            assert(rank[parent[y] as int] > rank[y]);
        }
    }
    assert(forest(p2, r2, parent.len() as int, b2));
    lemma_root(parent, rank, bound, x);
    lemma_root(p2, r2, b2, x);
    if parent[x] == x {
        if x == ra {
            lemma_root(p2, r2, b2, rb);
            assert(p2[rb] == rb);
        }
    } else {
        assert(x != ra);
        assert(p2[x] == parent[x]);
        lemma_union(parent, rank, bound, ra, rb, parent[x] as int);
    }
}

/// Roots agree exactly where the edges `es` link.
pub open spec fn roots_match(parent: Seq<usize>, rank: Seq<nat>, bound: nat, es: Seq<(usize, usize)>, n: int) -> bool {
    forall|x: int, y: int| 0 <= x < n && 0 <= y < n ==> (root(parent, rank, bound, x) == root(parent, rank, bound, y)
        <==> #[trigger] linked(es, x, y))
}

/// Two lists of edges link the same nodes below `n`.
pub open spec fn same_links(es: Seq<(usize, usize)>, fs: Seq<(usize, usize)>, n: int) -> bool {
    forall|x: int, y: int| 0 <= x < n && 0 <= y < n ==> (#[trigger] linked(es, x, y) <==> linked(fs, x, y))
}

/// Joining two trees with a new edge makes the roots of `x` and `y` agree
/// exactly when the edges with the new one link them.
proof fn lemma_join_pair(
    parent: Seq<usize>,
    rank: Seq<nat>,
    bound: nat,
    es: Seq<(usize, usize)>,
    n: int,
    a: usize,
    b: usize,
    x: int,
    y: int,
)
    requires
        forest(parent, rank, n, bound),
        roots_match(parent, rank, bound, es, n),
        a < n,
        b < n,
        0 <= x < n,
        0 <= y < n,
        root(parent, rank, bound, a as int) != root(parent, rank, bound, b as int),
    ensures
        ({
            let ra = root(parent, rank, bound, a as int);
            let rb = root(parent, rank, bound, b as int);
            let p2 = parent.update(ra, rb as usize);
            let r2 = rank.update(rb, merged_rank(rank, ra, rb));
            (root(p2, r2, bound + 1, x) == root(p2, r2, bound + 1, y)) == linked(es.push((a, b)), x, y)
        }),
{
    let ra = root(parent, rank, bound, a as int);
    let rb = root(parent, rank, bound, b as int);
    lemma_root(parent, rank, bound, a as int);
    lemma_root(parent, rank, bound, b as int);
    lemma_union(parent, rank, bound, ra, rb, x);
    lemma_union(parent, rank, bound, ra, rb, y);
    lemma_linked_push(es, (a, b), x, y);
    assert(linked(es, x, a as int) == (root(parent, rank, bound, x) == ra));
    assert(linked(es, b as int, y) == (rb == root(parent, rank, bound, y)));
    assert(linked(es, x, b as int) == (root(parent, rank, bound, x) == rb));
    assert(linked(es, a as int, y) == (ra == root(parent, rank, bound, y)));
    assert(linked(es, x, y) == (root(parent, rank, bound, x) == root(parent, rank, bound, y)));
}

/// Joining two trees with a new edge keeps roots matching links.
pub proof fn lemma_join(parent: Seq<usize>, rank: Seq<nat>, bound: nat, es: Seq<(usize, usize)>, n: int, a: usize, b: usize)
    requires
        forest(parent, rank, n, bound),
        roots_match(parent, rank, bound, es, n),
        a < n,
        b < n,
        root(parent, rank, bound, a as int) != root(parent, rank, bound, b as int),
    ensures
        ({
            let ra = root(parent, rank, bound, a as int);
            let rb = root(parent, rank, bound, b as int);
            roots_match(
                parent.update(ra, rb as usize),
                rank.update(rb, merged_rank(rank, ra, rb)),
                bound + 1,
                es.push((a, b)),
                n,
            )
        }),
{
    let ra = root(parent, rank, bound, a as int);
    let rb = root(parent, rank, bound, b as int);
    let p2 = parent.update(ra, rb as usize);
    let r2 = rank.update(rb, merged_rank(rank, ra, rb));
    assert forall|x: int, y: int| 0 <= x < n && 0 <= y < n implies (root(p2, r2, bound + 1, x) == root(p2, r2, bound + 1, y)
        <==> #[trigger] linked(es.push((a, b)), x, y)) by {
        lemma_join_pair(parent, rank, bound, es, n, a, b, x, y);
    }
}

/// An edge whose ends are already linked links nothing new.
pub proof fn lemma_redundant_edge(es: Seq<(usize, usize)>, e: (usize, usize))
    requires
        linked(es, e.0 as int, e.1 as int),
    ensures
        forall|x: int, y: int| #[trigger] linked(es.push(e), x, y) <==> linked(es, x, y),
{
    assert forall|x: int, y: int| #[trigger] linked(es.push(e), x, y) <==> linked(es, x, y) by {
        lemma_linked_push(es, e, x, y);
        if linked(es, x, e.0 as int) && linked(es, e.1 as int, y) {
            lemma_linked_trans(es, x, e.0 as int, e.1 as int);
            lemma_linked_trans(es, x, e.1 as int, y);
        }
        if linked(es, x, e.1 as int) && linked(es, e.0 as int, y) {
            lemma_linked_sym(es, e.0 as int, e.1 as int);
            lemma_linked_trans(es, x, e.1 as int, e.0 as int);
            lemma_linked_trans(es, x, e.0 as int, y);
        }
    }
}

/// The same edge added to two lists that link alike keeps them alike.
pub proof fn lemma_same_links_push(es: Seq<(usize, usize)>, fs: Seq<(usize, usize)>, e: (usize, usize), n: int)
    requires
        same_links(es, fs, n),
        e.0 < n,
        e.1 < n,
    ensures
        same_links(es.push(e), fs.push(e), n),
{
    assert forall|x: int, y: int| 0 <= x < n && 0 <= y < n implies (#[trigger] linked(es.push(e), x, y) <==> linked(
        fs.push(e),
        x,
        y,
    )) by {
        lemma_linked_push(es, e, x, y);
        lemma_linked_push(fs, e, x, y);
        assert(linked(es, x, y) <==> linked(fs, x, y));
        assert(linked(es, x, e.0 as int) <==> linked(fs, x, e.0 as int));
        assert(linked(es, x, e.1 as int) <==> linked(fs, x, e.1 as int));
        assert(linked(es, e.0 as int, y) <==> linked(fs, e.0 as int, y));
        assert(linked(es, e.1 as int, y) <==> linked(fs, e.1 as int, y));
    }
}

} // verus!
