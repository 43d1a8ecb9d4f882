//! Picking one entry of a list by integer weights and a drawn roll.

use vstd::prelude::*;

verus! {

/// The sum of the weights.
pub open spec fn weight_sum(ws: Seq<u32>) -> int
    decreases ws.len(),
{
    if ws.len() == 0 {
        0
    } else {
        ws[0] + weight_sum(ws.subrange(1, ws.len() as int))
    }
}

/// The entry a roll lands on: walking the entries in order, the first whose
/// weight exceeds what is left of the roll; `None` when the roll runs past
/// the last entry.
pub open spec fn pick_from(ws: Seq<u32>, roll: int) -> Option<int>
    decreases ws.len(),
{
    if ws.len() == 0 {
        None
    } else if roll < ws[0] {
        Some(0)
    } else {
        match pick_from(ws.subrange(1, ws.len() as int), roll - ws[0]) {
            Some(j) => Some(j + 1),
            None => None,
        }
    }
}

/// A roll below the total lands on an entry of non-zero weight; a roll at or
/// past the total lands on none.
pub proof fn law_roll_lands(ws: Seq<u32>, roll: int)
    requires
        0 <= roll,
    ensures
        roll < weight_sum(ws) ==> (pick_from(ws, roll) matches Some(i) && 0 <= i < ws.len() && ws[i] > 0),
        roll >= weight_sum(ws) ==> pick_from(ws, roll) is None,
    decreases ws.len(),
{
    if ws.len() > 0 {
        let rest = ws.subrange(1, ws.len() as int);
        lemma_weight_sum_nonneg(rest);
        if roll >= ws[0] {
            law_roll_lands(rest, roll - ws[0]);
            if let Some(j) = pick_from(rest, roll - ws[0]) {
                assert(ws[j + 1] == rest[j]);
            }
        }
    }
}

/// The entry a roll lands on is one of the entries.
pub proof fn lemma_pick_in_range(ws: Seq<u32>, roll: int)
    ensures
        pick_from(ws, roll) matches Some(i) ==> 0 <= i < ws.len(),
    decreases ws.len(),
{
    if ws.len() > 0 {
        lemma_pick_in_range(ws.subrange(1, ws.len() as int), roll - ws[0]);
    }
}

/// Sum of the first `k` weights.
proof fn lemma_weight_sum_split(ws: Seq<u32>, k: int)
    requires
        0 <= k <= ws.len(),
    ensures
        weight_sum(ws) == weight_sum(ws.subrange(0, k)) + weight_sum(ws.subrange(k, ws.len() as int)),
    decreases k,
{
    if k > 0 {
        let rest = ws.subrange(1, ws.len() as int);
        lemma_weight_sum_split(rest, k - 1);
        assert(rest.subrange(0, k - 1) =~= ws.subrange(0, k).subrange(1, k));
        assert(rest.subrange(k - 1, rest.len() as int) =~= ws.subrange(k, ws.len() as int));
        assert(ws.subrange(0, k)[0] == ws[0]);
    } else {
        assert(ws.subrange(0, 0) =~= Seq::<u32>::empty());
        assert(ws.subrange(0, ws.len() as int) =~= ws);
    }
}

/// The sum of the weights, which must fit in `u32`.
pub fn total_weight(ws: &Vec<u32>) -> (t: u32)
    requires
        weight_sum(ws@) <= u32::MAX,
    ensures
        t == weight_sum(ws@),
{
    let mut t: u32 = 0;
    let mut i: usize = 0;
    while i < ws.len()
        invariant
            i <= ws@.len(),
            weight_sum(ws@) <= u32::MAX,
            t == weight_sum(ws@.subrange(0, i as int)),
        decreases ws@.len() - i,
    {
        proof {
            lemma_weight_sum_split(ws@, i as int);
            lemma_weight_sum_split(ws@.subrange(i as int, ws@.len() as int), 1);
            lemma_weight_sum_split(ws@.subrange(0, i + 1), i as int);
            assert(ws@.subrange(0, i + 1).subrange(0, i as int) =~= ws@.subrange(0, i as int));
            assert(ws@.subrange(0, i + 1).subrange(i as int, i + 1) =~= seq![ws@[i as int]]);
            assert(ws@.subrange(i as int, ws@.len() as int).subrange(0, 1) =~= seq![ws@[i as int]]);
            assert(weight_sum(seq![ws@[i as int]]) == ws@[i as int]) by {
                assert(seq![ws@[i as int]].subrange(1, 1) =~= Seq::<u32>::empty());
            }
            assert(weight_sum(ws@.subrange(i as int, ws@.len() as int).subrange(1, ws@.len() - i)) >= 0) by {
                lemma_weight_sum_nonneg(ws@.subrange(i as int, ws@.len() as int).subrange(1, ws@.len() - i));
            }
        }
        t = t + ws[i];
        i = i + 1;
    }
    proof {
        assert(ws@.subrange(0, ws@.len() as int) =~= ws@);
    }
    t
}

pub proof fn lemma_weight_sum_nonneg(ws: Seq<u32>)
    ensures
        weight_sum(ws) >= 0,
    decreases ws.len(),
{
    if ws.len() > 0 {
        lemma_weight_sum_nonneg(ws.subrange(1, ws.len() as int));
    }
}

/// The entry that `roll` lands on.
pub fn pick_by_roll(ws: &Vec<u32>, roll: u32) -> (r: Option<usize>)
    ensures
        r matches Some(i) ==> pick_from(ws@, roll as int) == Some(i as int),
        r is None ==> pick_from(ws@, roll as int) is None,
{
    let mut left: u32 = roll;
    let mut i: usize = 0;
    assert(ws@.subrange(0, ws@.len() as int) =~= ws@);
    while i < ws.len()
        invariant
            i <= ws@.len(),
            pick_from(ws@, roll as int) == match pick_from(ws@.subrange(i as int, ws@.len() as int), left as int) {
                Some(j) => Some(j + i),
                None => None,
            },
        decreases ws@.len() - i,
    {
        let ghost rest = ws@.subrange(i as int, ws@.len() as int);
        proof {
            assert(rest[0] == ws@[i as int]);
        }
        if left < ws[i] {
            return Some(i);
        }
        proof {
            assert(rest.subrange(1, rest.len() as int) =~= ws@.subrange(i + 1, ws@.len() as int));
        }
        left = left - ws[i];
        i = i + 1;
    }
    None
}

} // verus!
