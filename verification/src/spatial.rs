//! Spreading points out: a shuffle of the candidates, then a greedy pick of
//! those far enough from every point picked before.

use vstd::prelude::*;
use rand_chacha::ChaCha8Rng;
use crate::rng::gen_range_incl_usize;

verus! {

/// Two points are apart when they differ by at least `d` along some axis.
pub open spec fn apart(p: (i32, i32), q: (i32, i32), d: int) -> bool {
    let dx = if p.0 >= q.0 { p.0 - q.0 } else { q.0 - p.0 };
    let dy = if p.1 >= q.1 { p.1 - q.1 } else { q.1 - p.1 };
    dx >= d || dy >= d
}

/// The point is apart from every point of `pts`.
pub open spec fn apart_from_all(p: (i32, i32), pts: Seq<(i32, i32)>, d: int) -> bool {
    forall|k: int| 0 <= k < pts.len() ==> apart(p, #[trigger] pts[k], d)
}

/// Whether two points are apart.
fn is_apart(p: (i32, i32), q: (i32, i32), d: i32) -> (b: bool)
    ensures
        b == apart(p, q, d as int),
{
    let dx = if p.0 >= q.0 { p.0 as i64 - q.0 as i64 } else { q.0 as i64 - p.0 as i64 };
    let dy = if p.1 >= q.1 { p.1 as i64 - q.1 as i64 } else { q.1 as i64 - p.1 as i64 };
    dx >= d as i64 || dy >= d as i64
}

/// A random permutation of the candidates (Fisher-Yates, from the back).
fn shuffled(candidates: &[(i32, i32)], rng: &mut ChaCha8Rng) -> (v: Vec<(i32, i32)>)
    ensures
        v@.len() == candidates@.len(),
        forall|p: (i32, i32)| v@.contains(p) <==> candidates@.contains(p),
{
    let mut v: Vec<(i32, i32)> = Vec::new();
    let mut k: usize = 0;
    while k < candidates.len()
        invariant
            k <= candidates@.len(),
            v@ == candidates@.subrange(0, k as int),
        decreases candidates@.len() - k,
    {
        v.push(candidates[k]);
        k = k + 1;
        assert(v@ =~= candidates@.subrange(0, k as int));
    }
    assert(candidates@.subrange(0, candidates@.len() as int) =~= candidates@);
    let n = v.len();
    if n > 1 {
        let mut i: usize = n - 1;
        while i >= 1
            invariant
                v@.len() == n,
                n == candidates@.len(),
                i < n,
                forall|p: (i32, i32)| v@.contains(p) <==> candidates@.contains(p),
            decreases i,
        {
            let j = gen_range_incl_usize(rng, 0, i);
            let a = v[i];
            let b = v[j];
            let ghost v0 = v@;
            v.set(i, b);
            v.set(j, a);
            proof {
                assert forall|p: (i32, i32)| v@.contains(p) <==> v0.contains(p) by {
                    if v@.contains(p) {
                        let m = choose|m: int| 0 <= m < v@.len() && v@[m] == p;
                        if m == i {
                            assert(v0[j as int] == p);
                        } else if m == j {
                            assert(v0[i as int] == p);
                        } else {
                            assert(v0[m] == p);
                        }
                    }
                    if v0.contains(p) {
                        let m = choose|m: int| 0 <= m < v0.len() && v0[m] == p;
                        if m == i {
                            assert(v@[j as int] == p);
                        } else if m == j {
                            assert(v@[i as int] == p);
                        } else {
                            assert(v@[m] == p);
                        }
                    }
                }
            }
            i = i - 1;
        }
    }
    v
}

/// Up to `max_points` of the candidates, in a random order, each apart (by
/// `min_distance`) from all picked before it. A candidate left out is too
/// close to a picked one, or the pick is full.
pub fn distribute_points_grid(candidates: &[(i32, i32)], max_points: usize, min_distance: i32, rng: &mut ChaCha8Rng) -> (r: Vec<
    (i32, i32),
>)
    ensures
        r@.len() <= max_points,
        forall|k: int| 0 <= k < r@.len() ==> candidates@.contains(#[trigger] r@[k]),
        forall|a: int, b: int| 0 <= a < b < r@.len() ==> apart(#[trigger] r@[b], #[trigger] r@[a], min_distance as int),
        forall|p: (i32, i32)| #[trigger] candidates@.contains(p) ==> r@.contains(p) || r@.len() == max_points || !apart_from_all(
            p,
            r@,
            min_distance as int,
        ),
{
    let order = shuffled(candidates, rng);
    let mut result: Vec<(i32, i32)> = Vec::new();
    let mut i: usize = 0;
    while i < order.len()
        invariant
            i <= order@.len(),
            result@.len() <= max_points,
            forall|p: (i32, i32)| order@.contains(p) <==> candidates@.contains(p),
            forall|k: int| 0 <= k < result@.len() ==> candidates@.contains(#[trigger] result@[k]),
            forall|a: int, b: int| 0 <= a < b < result@.len() ==> apart(#[trigger] result@[b], #[trigger] result@[a], min_distance as int),
            forall|m: int| 0 <= m < i ==> result@.contains(#[trigger] order@[m]) || result@.len() == max_points || !apart_from_all(
                order@[m],
                result@,
                min_distance as int,
            ),
        ensures
            result@.len() <= max_points,
            forall|k: int| 0 <= k < result@.len() ==> candidates@.contains(#[trigger] result@[k]),
            forall|a: int, b: int| 0 <= a < b < result@.len() ==> apart(#[trigger] result@[b], #[trigger] result@[a], min_distance as int),
            forall|m: int| 0 <= m < order@.len() ==> result@.contains(#[trigger] order@[m]) || result@.len() == max_points || !apart_from_all(
                order@[m],
                result@,
                min_distance as int,
            ),
        decreases order@.len() - i,
    {
        if result.len() >= max_points {
            break;
        }
        let c = order[i];
        let mut valid = true;
        let mut k: usize = 0;
        while k < result.len()
            invariant
                k <= result@.len(),
                valid == apart_from_all(c, result@.subrange(0, k as int), min_distance as int),
            decreases result@.len() - k,
        {
            let ok = is_apart(c, result[k], min_distance);
            proof {
                let s0 = result@.subrange(0, k as int);
                let s1 = result@.subrange(0, k + 1);
                assert(s1 =~= s0.push(result@[k as int]));
                if valid && ok {
                    assert forall|q: int| 0 <= q < s1.len() implies apart(c, #[trigger] s1[q], min_distance as int) by {
                        if q < k {
                            assert(s1[q] == s0[q]);
                        }
                    }
                }
                if !(valid && ok) {
                    if !valid {
                        let q = choose|q: int| 0 <= q < s0.len() && !apart(c, #[trigger] s0[q], min_distance as int);
                        assert(s1[q] == s0[q]);
                    } else {
                        assert(s1[k as int] == result@[k as int]);
                    }
                }
            }
            valid = valid && ok;
            k = k + 1;
        }
        proof {
            assert(result@.subrange(0, result@.len() as int) =~= result@);
            assert(order@.contains(c)) by {
                assert(order@[i as int] == c);
            }
        }
        let ghost r0 = result@;
        if valid {
            result.push(c);
            proof {
                assert forall|m: int| 0 <= m < i + 1 implies result@.contains(#[trigger] order@[m]) || result@.len() == max_points
                    || !apart_from_all(order@[m], result@, min_distance as int) by {
                    if m == i {
                        assert(result@[r0.len() as int] == c);
                    } else if r0.contains(order@[m]) {
                        let q = choose|q: int| 0 <= q < r0.len() && r0[q] == order@[m];
                        assert(result@[q] == order@[m]);
                    } else if !apart_from_all(order@[m], r0, min_distance as int) {
                        let q = choose|q: int| 0 <= q < r0.len() && !apart(order@[m], #[trigger] r0[q], min_distance as int);
                        assert(result@[q] == r0[q]);
                    }
                }
                assert forall|a: int, b: int| 0 <= a < b < result@.len() implies apart(#[trigger] result@[b], #[trigger] result@[a], min_distance as int) by {
                    if b == r0.len() {
                        assert(r0[a] == result@[a]);
                    } else {
                        assert(r0[a] == result@[a] && r0[b] == result@[b]);
                    }
                }
            }
        }
        i = i + 1;
    }
    result
}

} // verus!
