//! Gameplay constraint rules: their parameters and the checks that score a
//! generated map against them.

use vstd::prelude::*;
use rand_chacha::ChaCha8Rng;
use crate::map::{TileMap, Tile, Biome, tile_walkable};
use crate::quest_constraints::{count_walkable, QuestConstraintSystem};
use crate::constraints::{adjacent_floor_count, walk, raw_index, ObjectivePlacement, exit_route_count, steps_ok};
use crate::connectivity::abs_int;
use crate::connectivity::{count_false, lemma_count_false_update};
use crate::map::{cell_index, lemma_cell_index_bounds};
use crate::constraints::{ConstraintType, ConstraintSeverity, ConstraintContext, ConstraintResult, ConstraintSystem,
    EntityPlacement, ResourcePlacement};
use crate::text::{decimal, push_decimal, push_decimal_usize, push_decimal_u128, percent_text, push_percent};

verus! {

/// One element of a list parameter: a point given by whole `x` and `y`, a
/// string, or anything else.
#[derive(Debug, Clone)]
pub enum ParamItem {
    Point(i32, i32),
    Text(String),
    Other,
}

/// A rule parameter as read from its definition: a whole number, a
/// negative whole number, a number with a fraction (in millionths), a
/// string, a list, or anything else.
#[derive(Debug, Clone)]
pub enum ParamValue {
    Whole(u64),
    Negative(i64),
    Fraction(i64),
    Text(String),
    List(Vec<ParamItem>),
    Other,
}

/// A constraint rule and its named parameters.
#[derive(Debug, Clone)]
pub struct ConstraintRule {
    pub id: String,
    pub name: String,
    pub constraint_type: ConstraintType,
    pub parameters: Vec<(String, ParamValue)>,
    pub severity: ConstraintSeverity,
    pub enabled: bool,
}

/// The first parameter named `key`.
pub open spec fn param(params: Seq<(String, ParamValue)>, key: Seq<char>) -> Option<ParamValue>
    decreases params.len(),
{
    if params.len() == 0 {
        None
    } else if params[0].0@ == key {
        Some(params[0].1)
    } else {
        param(params.drop_first(), key)
    }
}

/// A whole-number parameter, cut to 32 bits.
pub open spec fn u32_param(params: Seq<(String, ParamValue)>, key: Seq<char>) -> Option<u32> {
    match param(params, key) {
        Some(ParamValue::Whole(v)) => Some(v as u32),
        _ => None,
    }
}

/// A numeric parameter in millionths.
pub open spec fn millionths_param(params: Seq<(String, ParamValue)>, key: Seq<char>) -> Option<int> {
    match param(params, key) {
        Some(ParamValue::Whole(v)) => Some(v * 1_000_000),
        Some(ParamValue::Negative(v)) => Some(v * 1_000_000),
        Some(ParamValue::Fraction(m)) => Some(m as int),
        _ => None,
    }
}

/// A string parameter.
pub open spec fn text_param(params: Seq<(String, ParamValue)>, key: Seq<char>) -> Option<Seq<char>> {
    match param(params, key) {
        Some(ParamValue::Text(s)) => Some(s@),
        _ => None,
    }
}

/// The strings of a list.
pub open spec fn texts_of(items: Seq<ParamItem>) -> Seq<Seq<char>>
    decreases items.len(),
{
    if items.len() == 0 {
        Seq::empty()
    } else {
        let rest = texts_of(items.drop_last());
        match items.last() {
            ParamItem::Text(s) => rest.push(s@),
            _ => rest,
        }
    }
}

/// The points of a list.
pub open spec fn points_of(items: Seq<ParamItem>) -> Seq<(i32, i32)>
    decreases items.len(),
{
    if items.len() == 0 {
        Seq::empty()
    } else {
        let rest = points_of(items.drop_last());
        match items.last() {
            ParamItem::Point(x, y) => rest.push((x, y)),
            _ => rest,
        }
    }
}

/// The strings of a list parameter; none when it is missing or no list.
pub open spec fn texts_param(params: Seq<(String, ParamValue)>, key: Seq<char>) -> Seq<Seq<char>> {
    match param(params, key) {
        Some(ParamValue::List(items)) => texts_of(items@),
        _ => Seq::empty(),
    }
}

/// The points of a list parameter; none when it is missing or no list.
pub open spec fn points_param(params: Seq<(String, ParamValue)>, key: Seq<char>) -> Seq<(i32, i32)> {
    match param(params, key) {
        Some(ParamValue::List(items)) => points_of(items@),
        _ => Seq::empty(),
    }
}

/// The parameter's value, or `d` when it is missing.
pub open spec fn or_default<T>(o: Option<T>, d: T) -> T {
    match o {
        Some(v) => v,
        None => d,
    }
}

/// The first parameter named `key`.
fn find_param<'a>(params: &'a Vec<(String, ParamValue)>, key: &str) -> (r: Option<&'a ParamValue>)
    ensures
        r matches Some(v) ==> param(params@, key@) == Some(*v),
        r is None ==> param(params@, key@) is None,
{
    let key_s = key.to_owned();
    proof {
        assert(params@.subrange(0, params@.len() as int) =~= params@);
    }
    let mut k: usize = 0;
    while k < params.len()
        invariant
            k <= params@.len(),
            key_s@ == key@,
            param(params@, key@) == param(params@.subrange(k as int, params@.len() as int), key@),
        decreases params@.len() - k,
    {
        proof {
            let rest = params@.subrange(k as int, params@.len() as int);
            assert(rest.drop_first() =~= params@.subrange(k + 1, params@.len() as int));
            assert(rest[0] == params@[k as int]);
        }
        if params[k].0 == key_s {
            return Some(&params[k].1);
        }
        k = k + 1;
    }
    proof {
        assert(params@.subrange(k as int, params@.len() as int).len() == 0);
    }
    None
}

/// A whole-number parameter, cut to 32 bits.
pub fn extract_u32(params: &Vec<(String, ParamValue)>, key: &str) -> (r: Option<u32>)
    ensures
        r == u32_param(params@, key@),
{
    match find_param(params, key) {
        Some(ParamValue::Whole(v)) => Some(*v as u32),
        _ => None,
    }
}

/// A numeric parameter in millionths.
pub fn extract_millionths(params: &Vec<(String, ParamValue)>, key: &str) -> (r: Option<i128>)
    ensures
        r matches Some(v) ==> millionths_param(params@, key@) == Some(v as int),
        r matches Some(v) ==> -0x8000_0000_0000_0000 * 1_000_000 <= v <= 0xffff_ffff_ffff_ffff * 1_000_000,
        r is None ==> millionths_param(params@, key@) is None,
{
    match find_param(params, key) {
        Some(ParamValue::Whole(v)) => Some((*v as i128) * 1_000_000),
        Some(ParamValue::Negative(v)) => Some((*v as i128) * 1_000_000),
        Some(ParamValue::Fraction(m)) => Some(*m as i128),
        _ => None,
    }
}

/// A string parameter.
pub fn extract_string(params: &Vec<(String, ParamValue)>, key: &str) -> (r: Option<String>)
    ensures
        r matches Some(s) ==> text_param(params@, key@) == Some(s@),
        r is None ==> text_param(params@, key@) is None,
{
    match find_param(params, key) {
        Some(ParamValue::Text(s)) => Some(s.clone()),
        _ => None,
    }
}

/// The strings of a list parameter.
pub fn extract_string_array(params: &Vec<(String, ParamValue)>, key: &str) -> (r: Vec<String>)
    ensures
        r@.map_values(|s: String| s@) == texts_param(params@, key@),
{
    let mut out: Vec<String> = Vec::new();
    match find_param(params, key) {
        Some(ParamValue::List(items)) => {
            let mut k: usize = 0;
            while k < items.len()
                invariant
                    k <= items@.len(),
                    out@.map_values(|s: String| s@) == texts_of(items@.take(k as int)),
                decreases items@.len() - k,
            {
                proof {
                    assert(items@.take(k + 1).drop_last() =~= items@.take(k as int));
                }
                match &items[k] {
                    ParamItem::Text(s) => {
                        out.push(s.clone());
                    },
                    _ => {},
                }
                proof {
                    assert(out@.map_values(|s: String| s@) =~= texts_of(items@.take(k + 1)));
                }
                k = k + 1;
            }
            proof {
                assert(items@.take(items@.len() as int) =~= items@);
            }
        },
        _ => {
            proof {
                assert(out@.map_values(|s: String| s@) =~= Seq::<Seq<char>>::empty());
            }
        },
    }
    out
}

/// The points of a list parameter.
pub fn extract_positions(params: &Vec<(String, ParamValue)>, key: &str) -> (r: Vec<(i32, i32)>)
    ensures
        r@ == points_param(params@, key@),
{
    let mut out: Vec<(i32, i32)> = Vec::new();
    match find_param(params, key) {
        Some(ParamValue::List(items)) => {
            let mut k: usize = 0;
            while k < items.len()
                invariant
                    k <= items@.len(),
                    out@ == points_of(items@.take(k as int)),
                decreases items@.len() - k,
            {
                proof {
                    assert(items@.take(k + 1).drop_last() =~= items@.take(k as int));
                }
                match &items[k] {
                    ParamItem::Point(x, y) => {
                        out.push((*x, *y));
                    },
                    _ => {},
                }
                k = k + 1;
            }
            proof {
                assert(items@.take(items@.len() as int) =~= items@);
            }
        },
        _ => {},
    }
    out
}

/// Floors and glass: the open space of a map.
pub open spec fn open_space(tiles: Seq<Tile>) -> nat
    decreases tiles.len(),
{
    if tiles.len() == 0 {
        0
    } else {
        open_space(tiles.drop_last()) + (if tiles.last() is Floor || tiles.last() is Glass { 1nat } else { 0nat })
    }
}

/// The amounts of the resources of a kind (of every kind when none is named).
pub open spec fn resource_total(rs: Seq<ResourcePlacement>, kind: Option<Seq<char>>) -> nat
    decreases rs.len(),
{
    if rs.len() == 0 {
        0
    } else {
        resource_total(rs.drop_last(), kind) + (match kind {
            Some(k) => if rs.last().resource_type@ == k { rs.last().amount as nat } else { 0nat },
            None => rs.last().amount as nat,
        })
    }
}

/// What a balance rule counts: the open space when it names the
/// "open_space" resource, else the amounts of the resources it names.
pub open spec fn balance_total(rule: ConstraintRule, context: ConstraintContext) -> nat {
    let kind = text_param(rule.parameters@, "resource_type"@);
    if kind == Some("open_space"@) {
        open_space(context.map.tiles@)
    } else {
        resource_total(context.resources@, kind)
    }
}

/// Entities of a type (every entity when none is named).
pub open spec fn entity_count(es: Seq<EntityPlacement>, kind: Option<Seq<char>>) -> nat
    decreases es.len(),
{
    if es.len() == 0 {
        0
    } else {
        entity_count(es.drop_last(), kind) + (match kind {
            Some(k) => if es.last().entity_type@ == k { 1nat } else { 0nat },
            None => 1nat,
        })
    }
}

/// The biome's name as written in rules.
pub open spec fn biome_name(b: Biome) -> Seq<char> {
    match b {
        Biome::Desert => "desert"@,
        Biome::Saltflat => "saltflat"@,
        Biome::Scrubland => "scrubland"@,
        Biome::Oasis => "oasis"@,
        Biome::Ruins => "ruins"@,
    }
}

/// The biome's name as written in rules.
pub fn biome_str(b: Biome) -> (s: &'static str)
    ensures
        s@ == biome_name(b),
{
    proof {
        reveal_strlit("desert");
        reveal_strlit("saltflat");
        reveal_strlit("scrubland");
        reveal_strlit("oasis");
        reveal_strlit("ruins");
    }
    match b {
        Biome::Desert => "desert",
        Biome::Saltflat => "saltflat",
        Biome::Scrubland => "scrubland",
        Biome::Oasis => "oasis",
        Biome::Ruins => "ruins",
    }
}

/// The most resources a resource rule allows on a map of `area` cells for a
/// density of `d` millionths: none for a density of zero or less, else the
/// whole part of the product, at most `usize::MAX`.
pub open spec fn resource_cap(area: int, d: int) -> int {
    if d <= 0 {
        0
    } else if area * d / 1_000_000 > usize::MAX {
        usize::MAX as int
    } else {
        area * d / 1_000_000
    }
}

/// A result for a rule.
pub open spec fn result_for(rule: ConstraintRule, r: ConstraintResult) -> bool {
    r.rule_id@ == rule.id@ && r.severity == rule.severity
}

/// Whether the tile is a floor or glass.
fn is_open_space(t: &Tile) -> (b: bool)
    ensures
        b == (*t is Floor || *t is Glass),
{
    match t {
        Tile::Floor { .. } => true,
        Tile::Glass => true,
        _ => false,
    }
}

impl ConstraintSystem {
    /// A balance rule: the counted total lies between its minimum (1 unless
    /// given) and maximum (100 unless given).
    pub fn validate_balance(rule: &ConstraintRule, context: &ConstraintContext) -> (r: ConstraintResult)
        requires
            context.map.tiles@.len() <= u32::MAX,
            resource_total(context.resources@, text_param(rule.parameters@, "resource_type"@)) <= u32::MAX,
        ensures
            balance_outcome(*rule, *context, r),
    {
        let kind = extract_string(&rule.parameters, "resource_type");
        let min = match extract_u32(&rule.parameters, "min_amount") {
            Some(v) => v,
            None => 1,
        };
        let max = match extract_u32(&rule.parameters, "max_amount") {
            Some(v) => v,
            None => 100,
        };
        let open = match &kind {
            Some(k) => *k == String::from_str("open_space"),
            None => false,
        };
        proof {
            reveal_strlit("open_space");
        }
        let mut total: u32 = 0;
        if open {
            let tiles = &context.map.tiles;
            let mut i: usize = 0;
            while i < tiles.len()
                invariant
                    i <= tiles@.len(),
                    tiles@.len() <= u32::MAX,
                    total == open_space(tiles@.take(i as int)),
                    total <= i,
                decreases tiles@.len() - i,
            {
                proof {
                    assert(tiles@.take(i + 1).drop_last() =~= tiles@.take(i as int));
                }
                if is_open_space(&tiles[i]) {
                    total = total + 1;
                }
                i = i + 1;
            }
            proof {
                assert(tiles@.take(tiles@.len() as int) =~= tiles@);
            }
        } else {
            let rs = &context.resources;
            let ghost kv: Option<Seq<char>> = match &kind {
                Some(k) => Some(k@),
                None => None,
            };
            let mut i: usize = 0;
            while i < rs.len()
                invariant
                    i <= rs@.len(),
                    kv == text_param(rule.parameters@, "resource_type"@),
                    kind matches Some(k) ==> kv == Some(k@),
                    kind is None ==> kv is None,
                    resource_total(rs@, kv) <= u32::MAX,
                    total == resource_total(rs@.take(i as int), kv),
                decreases rs@.len() - i,
            {
                proof {
                    assert(rs@.take(i + 1).drop_last() =~= rs@.take(i as int));
                    lemma_resource_total_prefix(rs@, kv, i + 1);
                }
                let counts = match &kind {
                    Some(k) => rs[i].resource_type == *k,
                    None => true,
                };
                if counts {
                    total = total + rs[i].amount;
                }
                i = i + 1;
            }
            proof {
                assert(rs@.take(rs@.len() as int) =~= rs@);
            }
        }
        let passed = total >= min && total <= max;
        let mut message = String::new();
        message.append("Balance: ");
        push_decimal(&mut message, total);
        message.append(" resources (range: ");
        push_decimal(&mut message, min);
        message.append("-");
        push_decimal(&mut message, max);
        message.append(")");
        ConstraintResult { rule_id: rule.id.clone(), passed, severity: rule.severity, message }
    }

    /// A placement rule: no entity of its type stands in a biome it forbids.
    pub fn validate_placement(rule: &ConstraintRule, context: &ConstraintContext) -> (r: ConstraintResult)
        ensures
            placement_outcome(*rule, *context, r),
    {
        let kind = extract_string(&rule.parameters, "entity_type");
        let forbidden = extract_string_array(&rule.parameters, "forbidden_biomes");
        let ghost kv: Option<Seq<char>> = match &kind {
            Some(k) => Some(k@),
            None => None,
        };
        let es = &context.entities;
        let mut n: usize = 0;
        let mut i: usize = 0;
        while i < es.len()
            invariant
                i <= es@.len(),
                kv == text_param(rule.parameters@, "entity_type"@),
                kind matches Some(k) ==> kv == Some(k@),
                kind is None ==> kv is None,
                n == entity_count(es@.take(i as int), kv),
                n <= i,
            decreases es@.len() - i,
        {
            proof {
                assert(es@.take(i + 1).drop_last() =~= es@.take(i as int));
            }
            let counts = match &kind {
                Some(k) => es[i].entity_type == *k,
                None => true,
            };
            if counts {
                n = n + 1;
            }
            i = i + 1;
        }
        proof {
            assert(es@.take(es@.len() as int) =~= es@);
        }
        let name = biome_str(context.biome);
        let name_s = name.to_owned();
        let mut is_forbidden = false;
        let mut k: usize = 0;
        while k < forbidden.len()
            invariant
                k <= forbidden@.len(),
                name@ == biome_name(context.biome),
                name_s@ == name@,
                is_forbidden == exists|j: int| 0 <= j < k && (#[trigger] forbidden@[j])@ == name@,
            decreases forbidden@.len() - k,
        {
            if forbidden[k] == name_s {
                is_forbidden = true;
            }
            k = k + 1;
        }
        proof {
            let tv = texts_param(rule.parameters@, "forbidden_biomes"@);
            assert(tv == forbidden@.map_values(|s: String| s@));
            if is_forbidden {
                let j = choose|j: int| 0 <= j < forbidden@.len() && (#[trigger] forbidden@[j])@ == name@;
                assert(tv[j] == name@);
            }
            if tv.contains(biome_name(context.biome)) {
                let j = choose|j: int| 0 <= j < tv.len() && tv[j] == biome_name(context.biome);
                assert(forbidden@[j]@ == name@);
            }
        }
        let passed = n == 0 || !is_forbidden;
        let mut message = String::new();
        message.append("Placement: ");
        push_decimal_usize(&mut message, n);
        message.append(" entities in ");
        message.append(name);
        message.append(" biome");
        ConstraintResult { rule_id: rule.id.clone(), passed, severity: rule.severity, message }
    }

    /// A resource rule: no more resources than the map's area times the
    /// density allows (a tenth unless given).
    pub fn validate_resource(rule: &ConstraintRule, context: &ConstraintContext) -> (r: ConstraintResult)
        requires
            context.map.width * context.map.height <= usize::MAX,
        ensures
            resource_outcome(*rule, *context, r),
    {
        let d: i128 = match extract_millionths(&rule.parameters, "max_density") {
            Some(v) => v,
            None => 100_000,
        };
        let area = context.map.width * context.map.height;
        let cap: usize = if d <= 0 || area == 0 {
            0
        } else if (d as u128) > u128::MAX / (area as u128) {
            proof {
                let q = u128::MAX / (area as u128);
                assert((area as int) * (d as int) > u128::MAX) by (nonlinear_arith)
                    requires
                        0 < area,
                        d as int >= q + 1,
                        q == u128::MAX as int / area as int,
                ;
            }
            usize::MAX
        } else {
            proof {
                assert((area as int) * (d as int) <= u128::MAX) by (nonlinear_arith)
                    requires
                        0 < area,
                        0 < d,
                        d as int <= u128::MAX as int / area as int,
                ;
            }
            let v: u128 = (area as u128) * (d as u128) / 1_000_000;
            if v > usize::MAX as u128 {
                usize::MAX
            } else {
                v as usize
            }
        };
        let len = context.resources.len();
        let passed = len <= cap;
        let mut message = String::new();
        message.append("Resource density: ");
        push_decimal_usize(&mut message, len);
        message.append("/");
        push_decimal_usize(&mut message, cap);
        message.append(" resources");
        ConstraintResult { rule_id: rule.id.clone(), passed, severity: rule.severity, message }
    }
}

/// The total over a prefix is no more than over the whole.
proof fn lemma_resource_total_prefix(rs: Seq<ResourcePlacement>, kind: Option<Seq<char>>, n: int)
    requires
        0 <= n <= rs.len(),
    ensures
        resource_total(rs.take(n), kind) <= resource_total(rs, kind),
    decreases rs.len() - n,
{
    if n < rs.len() {
        lemma_resource_total_prefix(rs, kind, n + 1);
        assert(rs.take(n + 1).drop_last() =~= rs.take(n));
    } else {
        assert(rs.take(n) =~= rs);
    }
}

/// Positions of the entities of a type (of every entity when none is
/// named), in order.
pub open spec fn positions_of_type(es: Seq<EntityPlacement>, kind: Option<Seq<char>>) -> Seq<(i32, i32)>
    decreases es.len(),
{
    if es.len() == 0 {
        Seq::empty()
    } else {
        let rest = positions_of_type(es.drop_last(), kind);
        let e = es.last();
        match kind {
            Some(k) => if e.entity_type@ == k { rest.push((e.x, e.y)) } else { rest },
            None => rest.push((e.x, e.y)),
        }
    }
}

/// Squared distance between two cells.
pub open spec fn dist2(p: (i32, i32), q: (i32, i32)) -> int {
    (p.0 - q.0) * (p.0 - q.0) + (p.1 - q.1) * (p.1 - q.1)
}

/// The distance between two cells is at least `min` and at most `max`
/// (both in millionths of a cell).
pub open spec fn in_range(p: (i32, i32), q: (i32, i32), min: int, max: int) -> bool {
    &&& (min <= 0 || dist2(p, q) * 1_000_000_000_000 >= min * min)
    &&& (max >= 0 && dist2(p, q) * 1_000_000_000_000 <= max * max)
}

/// Pairs in range among the positions, each pair counted once.
pub open spec fn pairs_in_range(ps: Seq<(i32, i32)>, min: int, max: int) -> nat
    decreases ps.len(),
{
    if ps.len() == 0 {
        0
    } else {
        pairs_in_range(ps.drop_last(), min, max) + in_range_with(ps.drop_last(), ps.last(), min, max)
    }
}

/// Positions in range of `q`.
pub open spec fn in_range_with(ps: Seq<(i32, i32)>, q: (i32, i32), min: int, max: int) -> nat
    decreases ps.len(),
{
    if ps.len() == 0 {
        0
    } else {
        in_range_with(ps.drop_last(), q, min, max) + (if in_range(ps.last(), q, min, max) { 1nat } else { 0nat })
    }
}

/// Differences of coordinates between the positions fit in `i32`.
pub open spec fn close_enough(ps: Seq<(i32, i32)>) -> bool {
    forall|a: int, b: int| 0 <= a < ps.len() && 0 <= b < ps.len() ==> {
        &&& i32::MIN <= (#[trigger] ps[a]).0 - (#[trigger] ps[b]).0 <= i32::MAX
        &&& i32::MIN <= ps[a].1 - ps[b].1 <= i32::MAX
    }
}

proof fn lemma_in_range_with_bound(ps: Seq<(i32, i32)>, q: (i32, i32), min: int, max: int)
    ensures
        in_range_with(ps, q, min, max) <= ps.len(),
    decreases ps.len(),
{
    if ps.len() > 0 {
        lemma_in_range_with_bound(ps.drop_last(), q, min, max);
    }
}

proof fn lemma_pairs_bound(ps: Seq<(i32, i32)>, min: int, max: int)
    ensures
        2 * pairs_in_range(ps, min, max) <= ps.len() * (ps.len() - 1),
    decreases ps.len(),
{
    if ps.len() > 0 {
        lemma_pairs_bound(ps.drop_last(), min, max);
        lemma_in_range_with_bound(ps.drop_last(), ps.last(), min, max);
        let n = ps.len() as int;
        assert((n - 1) * (n - 2) + 2 * (n - 1) == n * (n - 1)) by (nonlinear_arith);
    }
}

/// Whether two cells lie in range: exact squared distances, with the
/// bounds cut where no distance between `i32` cells can reach them.
fn in_range_exec(p: (i32, i32), q: (i32, i32), min: i128, max: i128) -> (b: bool)
    requires
        i32::MIN <= p.0 - q.0 <= i32::MAX,
        i32::MIN <= p.1 - q.1 <= i32::MAX,
    ensures
        b == in_range(p, q, min as int, max as int),
{
    let dx = (p.0 as i64 - q.0 as i64) as i128;
    let dy = (p.1 as i64 - q.1 as i64) as i128;
    proof {
        assert(dx * dx <= 0x4000_0000_0000_0000) by (nonlinear_arith)
            requires
                -0x8000_0000 <= dx <= 0x7fff_ffff,
        ;
        assert(dy * dy <= 0x4000_0000_0000_0000) by (nonlinear_arith)
            requires
                -0x8000_0000 <= dy <= 0x7fff_ffff,
        ;
        assert(0 <= dx * dx && 0 <= dy * dy) by (nonlinear_arith);
    }
    let d2: i128 = dx * dx + dy * dy;
    let scaled: i128 = d2 * 1_000_000_000_000;
    let limit: i128 = 10_000_000_000_000_000;
    let ge_min = if min <= 0 {
        true
    } else if min > limit {
        proof {
            assert(min * min > limit * limit) by (nonlinear_arith)
                requires
                    min > limit,
                    limit > 0,
            ;
        }
        false
    } else {
        proof {
            assert(min * min <= limit * limit) by (nonlinear_arith)
                requires
                    0 < min <= limit,
            ;
        }
        scaled >= min * min
    };
    let le_max = if max < 0 {
        false
    } else if max > limit {
        proof {
            assert(max * max > limit * limit) by (nonlinear_arith)
                requires
                    max > limit,
                    limit > 0,
            ;
        }
        true
    } else {
        proof {
            assert(max * max <= limit * limit) by (nonlinear_arith)
                requires
                    0 <= max <= limit,
            ;
        }
        scaled <= max * max
    };
    proof {
        assert(dist2(p, q) == d2);
    }
    ge_min && le_max
}

impl ConstraintSystem {
    /// A distance rule: at least seven in ten of the pairs of entities of
    /// its type lie between its minimum and maximum distance (5 and 50
    /// unless given); with fewer than two such entities it passes.
    pub fn validate_distance(rule: &ConstraintRule, context: &ConstraintContext) -> (r: ConstraintResult)
        requires
            close_enough(positions_of_type(context.entities@, text_param(rule.parameters@, "entity_type"@))),
            ({
                let n = positions_of_type(context.entities@, text_param(rule.parameters@, "entity_type"@)).len();
                n * (n - 1) / 2 <= i32::MAX
            }),
        ensures
            distance_outcome(*rule, *context, r),
    {
        let min: i128 = match extract_millionths(&rule.parameters, "min_distance") {
            Some(v) => v,
            None => 5_000_000,
        };
        let max: i128 = match extract_millionths(&rule.parameters, "max_distance") {
            Some(v) => v,
            None => 50_000_000,
        };
        let kind = extract_string(&rule.parameters, "entity_type");
        let ghost kv: Option<Seq<char>> = match &kind {
            Some(k) => Some(k@),
            None => None,
        };
        let es = &context.entities;
        let mut ps: Vec<(i32, i32)> = Vec::new();
        let mut i: usize = 0;
        while i < es.len()
            invariant
                i <= es@.len(),
                kv == text_param(rule.parameters@, "entity_type"@),
                kind matches Some(k) ==> kv == Some(k@),
                kind is None ==> kv is None,
                ps@ == positions_of_type(es@.take(i as int), kv),
            decreases es@.len() - i,
        {
            proof {
                assert(es@.take(i + 1).drop_last() =~= es@.take(i as int));
            }
            let counts = match &kind {
                Some(k) => es[i].entity_type == *k,
                None => true,
            };
            if counts {
                ps.push((es[i].x, es[i].y));
            }
            i = i + 1;
        }
        proof {
            assert(es@.take(es@.len() as int) =~= es@);
        }
        if ps.len() < 2 {
            return ConstraintResult {
                rule_id: rule.id.clone(),
                passed: true,
                severity: rule.severity,
                message: String::from_str("Insufficient entities for distance validation"),
            };
        }
        let ghost all = ps@;
        let n = ps.len();
        let mut valid: u64 = 0;
        let mut j: usize = 0;
        while j < n
            invariant
                n == ps@.len(),
                all == ps@,
                close_enough(all),
                n * (n - 1) / 2 <= i32::MAX,
                j <= n,
                valid == pairs_in_range(all.take(j as int), min as int, max as int),
                2 * valid <= j * (j - 1),
            decreases n - j,
        {
            let ghost before = valid;
            proof {
                lemma_pairs_bound(all.take(j as int), min as int, max as int);
                assert(all.take(j + 1).drop_last() =~= all.take(j as int));
                assert(all.take(j + 1).last() == all[j as int]);
            }
            let mut k: usize = 0;
            let mut with: u64 = 0;
            while k < j
                invariant
                    n == ps@.len(),
                    all == ps@,
                    close_enough(all),
                    j < n,
                    k <= j,
                    with == in_range_with(all.take(k as int), all[j as int], min as int, max as int),
                    with <= k,
                decreases j - k,
            {
                proof {
                    assert(all.take(k + 1).drop_last() =~= all.take(k as int));
                    assert(all.take(k + 1).last() == all[k as int]);
                }
                if in_range_exec(ps[k], ps[j], min, max) {
                    with = with + 1;
                }
                k = k + 1;
            }
            proof {
                assert(all.take(j as int).take(j as int) =~= all.take(j as int));
                assert(all.take(j as int) == all.take(j + 1).drop_last());
                assert(with == in_range_with(all.take(j + 1).drop_last(), all.take(j + 1).last(), min as int, max as int));
                assert(2 * before <= j * (j - 1));
                assert(j * (j - 1) <= n * (n - 1)) by (nonlinear_arith)
                    requires
                        j < n,
                ;
            }
            proof {
                assert(j * (j - 1) <= n * (n - 1)) by (nonlinear_arith)
                    requires
                        j < n,
                ;
                assert(n <= 0x20000) by (nonlinear_arith)
                    requires
                        n * (n - 1) / 2 <= i32::MAX,
                        n >= 0,
                ;
                lemma_pairs_bound(all.take(j + 1), min as int, max as int);
            }
            valid = valid + with;
            j = j + 1;
        }
        proof {
            assert(all.take(n as int) =~= all);
            lemma_pairs_bound(all, min as int, max as int);
            assert(n * (n - 1) >= 0) by (nonlinear_arith)
                requires
                    n >= 2,
            ;
        }
        let total: u64 = ((n as u64) * ((n - 1) as u64)) / 2;
        let passed = 10 * valid >= 7 * total;
        let mut message = String::new();
        message.append("Distance: ");
        push_decimal_u128(&mut message, valid as u128);
        message.append("/");
        push_decimal_u128(&mut message, total as u128);
        message.append(" pairs within range");
        ConstraintResult { rule_id: rule.id.clone(), passed, severity: rule.severity, message }
    }
}

/// The cell is at least `min` cells from every listed enemy.
pub open spec fn clear_of(x: int, y: int, enemies: Seq<(i32, i32)>, min: int) -> bool {
    forall|k: int| 0 <= k < enemies.len() ==> (x - (#[trigger] enemies[k]).0) * (x - enemies[k].0) + (y - enemies[k].1) * (
        y - enemies[k].1) >= min * min
}

/// Walkable cells clear of the enemies among the first `xs` of row `y`.
pub open spec fn safe_in_row(m: TileMap, y: int, xs: int, enemies: Seq<(i32, i32)>, min: int) -> nat
    decreases xs,
{
    if xs <= 0 {
        0
    } else {
        safe_in_row(m, y, xs - 1, enemies, min) + (if m.walkable_at(xs - 1, y) && clear_of(xs - 1, y, enemies, min) {
            1nat
        } else {
            0nat
        })
    }
}

/// Walkable cells clear of the enemies in the first `ys` rows.
pub open spec fn safe_in_rows(m: TileMap, ys: int, enemies: Seq<(i32, i32)>, min: int) -> nat
    decreases ys,
{
    if ys <= 0 {
        0
    } else {
        safe_in_rows(m, ys - 1, enemies, min) + safe_in_row(m, ys - 1, m.width as int, enemies, min)
    }
}

/// Subtracting an enemy's coordinates from a cell of the map stays in `i32`.
pub open spec fn enemies_near_map(m: TileMap, enemies: Seq<(i32, i32)>) -> bool {
    forall|k: int| 0 <= k < enemies.len() ==> (#[trigger] enemies[k]).0 >= m.width - 1 - i32::MAX && enemies[k].1
        >= m.height - 1 - i32::MAX
}

proof fn lemma_safe_row_bound(m: TileMap, y: int, xs: int, enemies: Seq<(i32, i32)>, min: int)
    requires
        xs >= 0,
    ensures
        safe_in_row(m, y, xs, enemies, min) <= xs,
    decreases xs,
{
    if xs > 0 {
        lemma_safe_row_bound(m, y, xs - 1, enemies, min);
    }
}

proof fn lemma_safe_rows_bound(m: TileMap, ys: int, enemies: Seq<(i32, i32)>, min: int)
    requires
        ys >= 0,
    ensures
        safe_in_rows(m, ys, enemies, min) <= ys * m.width,
    decreases ys,
{
    if ys > 0 {
        lemma_safe_rows_bound(m, ys - 1, enemies, min);
        lemma_safe_row_bound(m, ys - 1, m.width as int, enemies, min);
        assert((ys - 1) * m.width + m.width == ys * m.width) by (nonlinear_arith);
    }
}

/// Whether the cell is at least `min` cells from every enemy.
fn clear_of_exec(x: i32, y: i32, enemies: &Vec<(i32, i32)>, min: u32) -> (b: bool)
    requires
        forall|k: int| 0 <= k < enemies@.len() ==> {
            &&& i32::MIN <= x - (#[trigger] enemies@[k]).0 <= i32::MAX
            &&& i32::MIN <= y - enemies@[k].1 <= i32::MAX
        },
    ensures
        b == clear_of(x as int, y as int, enemies@, min as int),
{
    let mut k: usize = 0;
    while k < enemies.len()
        invariant
            k <= enemies@.len(),
            forall|j: int| 0 <= j < enemies@.len() ==> {
                &&& i32::MIN <= x - (#[trigger] enemies@[j]).0 <= i32::MAX
                &&& i32::MIN <= y - enemies@[j].1 <= i32::MAX
            },
            forall|j: int| 0 <= j < k ==> (x - (#[trigger] enemies@[j]).0) * (x - enemies@[j].0) + (y - enemies@[j].1) * (
                y - enemies@[j].1) >= min * min,
        decreases enemies@.len() - k,
    {
        let (ex, ey) = enemies[k];
        let dx = (x as i64 - ex as i64) as i128;
        let dy = (y as i64 - ey as i64) as i128;
        proof {
            assert(dx * dx <= 0x4000_0000_0000_0000 && 0 <= dx * dx) by (nonlinear_arith)
                requires
                    -0x8000_0000 <= dx <= 0x7fff_ffff,
            ;
            assert(dy * dy <= 0x4000_0000_0000_0000 && 0 <= dy * dy) by (nonlinear_arith)
                requires
                    -0x8000_0000 <= dy <= 0x7fff_ffff,
            ;
        }
        proof {
            assert((min as i128) * (min as i128) <= 0xffff_ffff * 0xffff_ffff) by (nonlinear_arith)
                requires
                    0 <= min <= 0xffff_ffff,
            ;
        }
        if dx * dx + dy * dy < (min as i128) * (min as i128) {
            return false;
        }
        k = k + 1;
    }
    true
}

/// Interior walkable cells (off the edge) among columns `1..xs` of row `y`
/// with at most two walkable neighbours (`narrow`) or with six or more.
pub open spec fn tactical_in_row(m: TileMap, y: int, xs: int, narrow: bool) -> nat
    decreases xs,
{
    if xs <= 1 {
        0
    } else {
        let x = xs - 1;
        tactical_in_row(m, y, xs - 1, narrow) + (if m.walkable_at(x, y) && (if narrow {
            adjacent_floor_count(&m, x, y) <= 2
        } else {
            adjacent_floor_count(&m, x, y) >= 6
        }) {
            1nat
        } else {
            0nat
        })
    }
}

/// Such cells over rows `1..ys`, columns `1..width - 1`.
pub open spec fn tactical_in_rows(m: TileMap, ys: int, narrow: bool) -> nat
    decreases ys,
{
    if ys <= 1 {
        0
    } else {
        tactical_in_rows(m, ys - 1, narrow) + tactical_in_row(m, ys - 1, m.width - 1, narrow)
    }
}

proof fn lemma_tactical_row_bound(m: TileMap, y: int, xs: int, narrow: bool)
    ensures
        tactical_in_row(m, y, xs, narrow) <= (if xs >= 1 { xs - 1 } else { 0 }),
    decreases xs,
{
    if xs > 1 {
        lemma_tactical_row_bound(m, y, xs - 1, narrow);
    }
}

proof fn lemma_tactical_rows_bound(m: TileMap, ys: int, narrow: bool)
    requires
        m.width >= 1,
    ensures
        tactical_in_rows(m, ys, narrow) <= (if ys >= 1 { ys - 1 } else { 0 }) * m.width,
    decreases ys,
{
    if ys > 1 {
        lemma_tactical_rows_bound(m, ys - 1, narrow);
        lemma_tactical_row_bound(m, ys - 1, m.width - 1, narrow);
        assert((ys - 2) * m.width + m.width == (ys - 1) * m.width) by (nonlinear_arith);
    }
}

/// Whether a tactical rule passes for `c` chokepoints against a minimum of
/// `mn`, `o` open cells among `t` walkable ones, and an open share of at
/// most `r` millionths: the mean of the chokepoint score (`c / mn`, at most
/// one) and the open score (one within the share, else the share over the
/// open ratio) is at least 0.7. With nothing walkable the ratio is
/// undefined and the rule fails.
pub open spec fn tactical_passes(c: int, mn: int, o: int, t: int, r: int) -> bool {
    if t == 0 {
        false
    } else if o * 1_000_000 <= r * t {
        c >= mn || 5 * c >= 2 * mn
    } else if o == 0 {
        false
    } else if c >= mn {
        10 * r * t >= 4_000_000 * o
    } else {
        10 * c * 1_000_000 * o + 10 * r * t * mn >= 14 * mn * 1_000_000 * o
    }
}

fn tactical_passes_exec(c: u32, mn: u32, o: u64, t: u64, r: i128) -> (b: bool)
    requires
        o <= i32::MAX,
        t <= i32::MAX,
        -0x1_0000_0000_0000_0000_0000 <= r <= 0x1_0000_0000_0000_0000_0000,
    ensures
        b == tactical_passes(c as int, mn as int, o as int, t as int, r as int),
{
    if t == 0 {
        return false;
    }
    let tt = t as i128;
    let oo = o as i128;
    let cc = c as i128;
    let mm = mn as i128;
    proof {
        assert(-0x1_0000_0000_0000_0000_0000 * 0x8000_0000 <= r * tt <= 0x1_0000_0000_0000_0000_0000 * 0x8000_0000) by (nonlinear_arith)
            requires
                -0x1_0000_0000_0000_0000_0000 <= r <= 0x1_0000_0000_0000_0000_0000,
                0 < tt <= 0x7fff_ffff,
        ;
    }
    let rt = r * tt;
    proof {
        assert(10 * r * tt == 10 * rt) by (nonlinear_arith)
            requires
                rt == r * tt,
        ;
    }
    if oo * 1_000_000 <= rt {
        return c >= mn || 5 * (c as u64) >= 2 * (mn as u64);
    }
    if o == 0 {
        return false;
    }
    proof {
        assert(rt < 0x8000_0000 * 1_000_000);
    }
    if rt < -0x400_0000_0000_0000_0000_0000 {
        proof {
            assert(r * tt == rt);
            assert(10 * rt < 4_000_000 * oo);
            if mm > c {
                assert(10 * rt * mm <= 10 * rt) by (nonlinear_arith)
                    requires
                        rt < 0,
                        mm >= 1,
                ;
                assert(10 * cc * 1_000_000 * oo <= 10 * 0xffff_ffff * 1_000_000 * 0x7fff_ffff) by (nonlinear_arith)
                    requires
                        0 <= cc <= 0xffff_ffff,
                        0 <= oo <= 0x7fff_ffff,
                ;
                assert(0 < 14 * mm * 1_000_000 * oo) by (nonlinear_arith)
                    requires
                        mm >= 1,
                        oo >= 1,
                ;
                assert(10 * r * tt * mm == 10 * rt * mm) by (nonlinear_arith)
                    requires
                        rt == r * tt,
                ;
                assert(10 * cc * 1_000_000 * oo + 10 * r * tt * mm < 14 * mm * 1_000_000 * oo);
            }
        }
        return false;
    }
    proof {
        assert(-0x400_0000_0000_0000_0000_0000 * 10 * 0x1_0000_0000 <= 10 * rt * mm <= 10 * 0x8000_0000 * 1_000_000 * 0x1_0000_0000) by (nonlinear_arith)
            requires
                -0x400_0000_0000_0000_0000_0000 <= rt < 0x8000_0000 * 1_000_000,
                0 <= mm <= 0xffff_ffff,
        ;
        assert(0 <= 10 * cc * 1_000_000 * oo <= 10 * 0xffff_ffff * 1_000_000 * 0x7fff_ffff) by (nonlinear_arith)
            requires
                0 <= cc <= 0xffff_ffff,
                0 <= oo <= 0x7fff_ffff,
        ;
        assert(0 <= 14 * mm * 1_000_000 * oo <= 14 * 0xffff_ffff * 1_000_000 * 0x7fff_ffff) by (nonlinear_arith)
            requires
                0 <= mm <= 0xffff_ffff,
                0 <= oo <= 0x7fff_ffff,
        ;
        assert(10 * rt * mm == 10 * r * tt * mm) by (nonlinear_arith)
            requires
                rt == r * tt,
        ;
    }
    if c >= mn {
        10 * rt >= 4_000_000 * oo
    } else {
        10 * cc * 1_000_000 * oo + 10 * rt * mm >= 14 * mm * 1_000_000 * oo
    }
}

impl ConstraintSystem {
    /// A safe-zone rule: the walkable cells at least its safe distance (5
    /// unless given) from every enemy cover at least its share (0.3 unless
    /// given) of the walkable cells.
    pub fn validate_safe_zone(rule: &ConstraintRule, context: &ConstraintContext) -> (r: ConstraintResult)
        requires
            context.map.wf(),
            context.map.tiles@.len() <= i32::MAX,
            enemies_near_map(*context.map, positions_of_type(context.entities@, Some("enemy"@))),
        ensures
            safe_zone_outcome(*rule, *context, r),
    {
        let min: u32 = match extract_u32(&rule.parameters, "min_safe_distance") {
            Some(v) => v,
            None => 5,
        };
        let req: i128 = match extract_millionths(&rule.parameters, "safe_zone_coverage") {
            Some(v) => v,
            None => 300_000,
        };
        let es = &context.entities;
        let enemy = String::from_str("enemy");
        proof {
            reveal_strlit("enemy");
        }
        let mut enemies: Vec<(i32, i32)> = Vec::new();
        let mut i: usize = 0;
        while i < es.len()
            invariant
                i <= es@.len(),
                enemy@ == "enemy"@,
                enemies@ == positions_of_type(es@.take(i as int), Some("enemy"@)),
            decreases es@.len() - i,
        {
            proof {
                assert(es@.take(i + 1).drop_last() =~= es@.take(i as int));
            }
            if es[i].entity_type == enemy {
                enemies.push((es[i].x, es[i].y));
            }
            i = i + 1;
        }
        proof {
            assert(es@.take(es@.len() as int) =~= es@);
        }
        let m = context.map;
        let total = QuestConstraintSystem::calculate_accessible_area(m);
        let mut safe: u64 = 0;
        let mut y: usize = 0;
        while y < m.height
            invariant
                m.wf(),
                m.tiles@.len() <= i32::MAX,
                enemies_near_map(*m, enemies@),
                y <= m.height,
                safe == safe_in_rows(*m, y as int, enemies@, min as int),
                safe <= y * m.width,
            decreases m.height - y,
        {
            let mut x: usize = 0;
            let mut row: u64 = 0;
            while x < m.width
                invariant
                    m.wf(),
                    m.tiles@.len() <= i32::MAX,
                    enemies_near_map(*m, enemies@),
                    y < m.height,
                    x <= m.width,
                    row == safe_in_row(*m, y as int, x as int, enemies@, min as int),
                    row <= x,
                decreases m.width - x,
            {
                if m.is_walkable(x as i32, y as i32) && clear_of_exec(x as i32, y as i32, &enemies, min) {
                    row = row + 1;
                }
                x = x + 1;
            }
            proof {
                lemma_safe_rows_bound(*m, y + 1, enemies@, min as int);
                assert(m.width * m.height <= i32::MAX);
                assert((y + 1) * m.width <= m.height * m.width) by (nonlinear_arith)
                    requires
                        y < m.height,
                ;
            }
            safe = safe + row;
            y = y + 1;
        }
        proof {
            assert(safe <= m.height * m.width);
            lemma_count_walkable_bound(m.tiles@);
        }
        proof {
            assert(-0x8000_0000_0000_0000 * 1_000_000 * 0x7fff_ffff <= req * (total as i128) <= 0xffff_ffff_ffff_ffff * 1_000_000 * 0x7fff_ffff) by (nonlinear_arith)
                requires
                    -0x8000_0000_0000_0000 * 1_000_000 <= req <= 0xffff_ffff_ffff_ffff * 1_000_000,
                    0 <= total <= 0x7fff_ffff,
            ;
        }
        let passed = total > 0 && (safe as i128) * 1_000_000 >= req * (total as i128);
        let mut message = String::new();
        message.append("Safe zones: ");
        push_percent(&mut message, safe, total as u64);
        message.append("% coverage (");
        push_decimal_u128(&mut message, safe as u128);
        message.append(" safe tiles)");
        ConstraintResult { rule_id: rule.id.clone(), passed, severity: rule.severity, message }
    }

    /// A tactical rule: enough chokepoints (walkable cells off the edge with
    /// at most two walkable neighbours; 2 unless given) and not too large a
    /// share of open cells (six or more; 0.4 unless given).
    #[verifier::rlimit(40)]
    pub fn validate_tactical(rule: &ConstraintRule, context: &ConstraintContext) -> (r: ConstraintResult)
        requires
            context.map.wf(),
            context.map.tiles@.len() <= i32::MAX,
            context.map.height >= 1,
            context.map.height >= 3 ==> context.map.width >= 1,
        ensures
            tactical_outcome(*rule, *context, r),
    {
        let mn: u32 = match extract_u32(&rule.parameters, "min_chokepoints") {
            Some(v) => v,
            None => 2,
        };
        let ratio: i128 = match extract_millionths(&rule.parameters, "max_open_ratio") {
            Some(v) => v,
            None => 400_000,
        };
        let m = context.map;
        let total = QuestConstraintSystem::calculate_accessible_area(m);
        let mut chokes: u64 = 0;
        let mut opens: u64 = 0;
        let h = m.height;
        let mut y: usize = 1;
        while y + 1 < h
            invariant
                m.wf(),
                m.tiles@.len() <= i32::MAX,
                h == m.height,
                h >= 3 ==> m.width >= 1,
                1 <= y,
                y + 1 <= h || y == 1,
                chokes == tactical_in_rows(*m, y as int, true),
                opens == tactical_in_rows(*m, y as int, false),
                chokes <= (y - 1) * m.width,
                opens <= (y - 1) * m.width,
            decreases h - y,
        {
            let w = m.width;
            let mut x: usize = 1;
            let mut rc: u64 = 0;
            let mut ro: u64 = 0;
            while x + 1 < w
                invariant
                    m.wf(),
                    w == m.width,
                    w >= 1,
                    y + 1 < h,
                    h == m.height,
                    1 <= x,
                    x + 1 <= w || x == 1,
                    rc == tactical_in_row(*m, y as int, x as int, true),
                    ro == tactical_in_row(*m, y as int, x as int, false),
                    rc < x,
                    ro < x,
                decreases w - x,
            {
                if m.is_walkable(x as i32, y as i32) {
                    let adj = Self::count_adjacent_floors(m, x as i32, y as i32);
                    if adj <= 2 {
                        rc = rc + 1;
                    }
                    if adj >= 6 {
                        ro = ro + 1;
                    }
                }
                x = x + 1;
            }
            proof {
                if w >= 2 {
                    assert(x == w - 1);
                }
                lemma_tactical_rows_bound(*m, y + 1, true);
                lemma_tactical_rows_bound(*m, y + 1, false);
                assert(y * m.width <= m.height * m.width) by (nonlinear_arith)
                    requires
                        y < m.height,
                ;
            }
            chokes = chokes + rc;
            opens = opens + ro;
            y = y + 1;
        }
        proof {
            if h >= 2 {
                assert(y == h - 1);
            } else {
                assert(tactical_in_rows(*m, h - 1, true) == 0);
                assert(tactical_in_rows(*m, h - 1, false) == 0);
            }
            if h >= 2 {
                assert((y - 1) * m.width <= m.height * m.width) by (nonlinear_arith)
                    requires
                        y <= m.height,
                ;
            }
            lemma_count_walkable_bound(m.tiles@);
        }
        proof {
            assert(opens <= m.height * m.width);
            assert(chokes <= m.height * m.width);
            assert(m.height * m.width == m.width * m.height) by (nonlinear_arith);
        }
        let c: u32 = chokes as u32;
        let passed = tactical_passes_exec(c, mn, opens, total as u64, clamp_ratio(ratio));
        proof {
            lemma_clamp_ratio(c as int, mn as int, opens as int, total as int, ratio as int);
        }
        let mut message = String::new();
        message.append("Tactical: ");
        push_decimal(&mut message, c);
        message.append(" chokepoints, ");
        push_percent(&mut message, opens, total as u64);
        message.append("% open areas");
        ConstraintResult { rule_id: rule.id.clone(), passed, severity: rule.severity, message }
    }
}

/// A share bound clamped to where it can change a tactical verdict.
fn clamp_ratio(r: i128) -> (c: i128)
    ensures
        c == clamped(r as int),
{
    if r > 0x1_0000_0000_0000_0000_0000 {
        0x1_0000_0000_0000_0000_0000
    } else if r < -0x1_0000_0000_0000_0000_0000 {
        -0x1_0000_0000_0000_0000_0000
    } else {
        r
    }
}

/// `r` clamped to plus or minus 2^80.
pub open spec fn clamped(r: int) -> int {
    if r > 0x1_0000_0000_0000_0000_0000 {
        0x1_0000_0000_0000_0000_0000
    } else if r < -0x1_0000_0000_0000_0000_0000 {
        -0x1_0000_0000_0000_0000_0000
    } else {
        r
    }
}

/// Clamping the share bound to plus or minus 2^80 keeps every tactical
/// verdict for counts below 2^31.
proof fn lemma_clamp_ratio(c: int, mn: int, o: int, t: int, r: int)
    requires
        0 <= c <= u32::MAX,
        0 <= mn <= u32::MAX,
        0 <= o <= i32::MAX,
        0 <= t <= i32::MAX,
    ensures
        tactical_passes(c, mn, o, t, clamped(r)) == tactical_passes(c, mn, o, t, r),
{
    let k = 0x1_0000_0000_0000_0000_0000int;
    if t > 0 {
        if r > k {
            assert(o * 1_000_000 <= k * t) by (nonlinear_arith)
                requires
                    0 <= o <= i32::MAX,
                    t >= 1,
                    k == 0x1_0000_0000_0000_0000_0000int,
            ;
            assert(k * t <= r * t) by (nonlinear_arith)
                requires
                    r > k,
                    t >= 1,
            ;
        } else if r < -k {
            assert(-k * t < 0) by (nonlinear_arith)
                requires
                    t >= 1,
                    k > 0,
            ;
            assert(r * t < 0) by (nonlinear_arith)
                requires
                    r < -k,
                    t >= 1,
                    k > 0,
            ;
            if o > 0 {
                assert(10 * r * t < 4_000_000 * o) by (nonlinear_arith)
                    requires
                        r < 0,
                        t >= 1,
                        o >= 1,
                ;
                assert(10 * (-k) * t < 4_000_000 * o) by (nonlinear_arith)
                    requires
                        k > 0,
                        t >= 1,
                        o >= 1,
                ;
                if mn > c {
                    assert(10 * c * 1_000_000 * o + 10 * r * t * mn < 14 * mn * 1_000_000 * o) by (nonlinear_arith)
                        requires
                            r < -k,
                            k == 0x1_0000_0000_0000_0000_0000int,
                            t >= 1,
                            o >= 1,
                            mn >= 1,
                            0 <= c < mn,
                            o <= i32::MAX,
                    ;
                    assert(10 * c * 1_000_000 * o + 10 * (-k) * t * mn < 14 * mn * 1_000_000 * o) by (nonlinear_arith)
                        requires
                            k == 0x1_0000_0000_0000_0000_0000int,
                            t >= 1,
                            o >= 1,
                            mn >= 1,
                            0 <= c < mn,
                            o <= i32::MAX,
                    ;
                }
            }
        }
    }
}

/// Walkable tiles are no more than all tiles.
proof fn lemma_count_walkable_bound(s: Seq<Tile>)
    ensures
        count_walkable(s) <= s.len(),
    decreases s.len(),
{
    if s.len() > 0 {
        lemma_count_walkable_bound(s.drop_last());
    }
}

/// A path is known from `a` to `b`: they are the same cell, or the pair is
/// among those the map's path search connected.
pub open spec fn path_known(paths: Seq<((i32, i32), (i32, i32))>, a: (i32, i32), b: (i32, i32)) -> bool {
    a == b || paths.contains((a, b))
}

/// Ends connected to one start.
pub open spec fn connected_from(paths: Seq<((i32, i32), (i32, i32))>, s: (i32, i32), ends: Seq<(i32, i32)>) -> nat
    decreases ends.len(),
{
    if ends.len() == 0 {
        0
    } else {
        connected_from(paths, s, ends.drop_last()) + (if path_known(paths, s, ends.last()) { 1nat } else { 0nat })
    }
}

/// Start and end pairs that are connected.
pub open spec fn connected_pairs(
    paths: Seq<((i32, i32), (i32, i32))>,
    starts: Seq<(i32, i32)>,
    ends: Seq<(i32, i32)>,
) -> nat
    decreases starts.len(),
{
    if starts.len() == 0 {
        0
    } else {
        connected_pairs(paths, starts.drop_last(), ends) + connected_from(paths, starts.last(), ends)
    }
}

/// Positions of the required objectives, in order.
pub open spec fn required_positions(os: Seq<ObjectivePlacement>) -> Seq<(i32, i32)>
    decreases os.len(),
{
    if os.len() == 0 {
        Seq::empty()
    } else {
        let rest = required_positions(os.drop_last());
        if os.last().required {
            rest.push((os.last().x, os.last().y))
        } else {
            rest
        }
    }
}

/// The cell a spawn is assumed at: the middle of the map.
pub open spec fn map_centre(m: TileMap) -> (i32, i32) {
    (((m.width as i32) / 2) as i32, ((m.height as i32) / 2) as i32)
}

/// Whether the pair is known to be connected.
fn path_known_exec(paths: &Vec<((i32, i32), (i32, i32))>, a: (i32, i32), b: (i32, i32)) -> (r: bool)
    ensures
        r == path_known(paths@, a, b),
{
    if a.0 == b.0 && a.1 == b.1 {
        return true;
    }
    let mut k: usize = 0;
    while k < paths.len()
        invariant
            k <= paths@.len(),
            forall|j: int| 0 <= j < k ==> paths@[j] != (a, b),
        decreases paths@.len() - k,
    {
        let (p, q) = paths[k];
        if p.0 == a.0 && p.1 == a.1 && q.0 == b.0 && q.1 == b.1 {
            proof {
                assert(paths@[k as int] == (a, b));
            }
            return true;
        }
        k = k + 1;
    }
    false
}

proof fn lemma_connected_from_bound(paths: Seq<((i32, i32), (i32, i32))>, s: (i32, i32), ends: Seq<(i32, i32)>)
    ensures
        connected_from(paths, s, ends) <= ends.len(),
    decreases ends.len(),
{
    if ends.len() > 0 {
        lemma_connected_from_bound(paths, s, ends.drop_last());
    }
}

proof fn lemma_connected_pairs_bound(paths: Seq<((i32, i32), (i32, i32))>, starts: Seq<(i32, i32)>, ends: Seq<(i32, i32)>)
    ensures
        connected_pairs(paths, starts, ends) <= starts.len() * ends.len(),
    decreases starts.len(),
{
    if starts.len() > 0 {
        lemma_connected_pairs_bound(paths, starts.drop_last(), ends);
        lemma_connected_from_bound(paths, starts.last(), ends);
        assert((starts.len() - 1) * ends.len() + ends.len() == starts.len() * ends.len()) by (nonlinear_arith);
    }
}

/// Required objective positions, in order.
fn required_objectives(os: &Vec<ObjectivePlacement>) -> (ps: Vec<(i32, i32)>)
    ensures
        ps@ == required_positions(os@),
        ps@.len() <= os@.len(),
{
    let mut ps: Vec<(i32, i32)> = Vec::new();
    let mut i: usize = 0;
    while i < os.len()
        invariant
            i <= os@.len(),
            ps@ == required_positions(os@.take(i as int)),
            ps@.len() <= i,
        decreases os@.len() - i,
    {
        proof {
            assert(os@.take(i + 1).drop_last() =~= os@.take(i as int));
        }
        if os[i].required {
            ps.push((os[i].x, os[i].y));
        }
        i = i + 1;
    }
    proof {
        assert(os@.take(os@.len() as int) =~= os@);
    }
    ps
}

impl ConstraintSystem {
    /// A connectivity rule: at least four in five of its start and end pairs
    /// are connected; with no starts or no ends it passes. Which pairs the
    /// map's path search connects is given in `paths`.
    pub fn validate_connectivity(
        rule: &ConstraintRule,
        context: &ConstraintContext,
        paths: &Vec<((i32, i32), (i32, i32))>,
    ) -> (r: ConstraintResult)
        requires
            points_param(rule.parameters@, "start_points"@).len() * points_param(rule.parameters@, "end_points"@).len()
                <= i32::MAX,
        ensures
            connectivity_outcome(*rule, *context, paths@, r),
    {
        let starts = extract_positions(&rule.parameters, "start_points");
        let ends = extract_positions(&rule.parameters, "end_points");
        if starts.len() == 0 || ends.len() == 0 {
            return ConstraintResult {
                rule_id: rule.id.clone(),
                passed: true,
                severity: rule.severity,
                message: String::from_str("No connectivity points to validate"),
            };
        }
        let mut connected: u64 = 0;
        let mut i: usize = 0;
        while i < starts.len()
            invariant
                i <= starts@.len(),
                starts@.len() * ends@.len() <= i32::MAX,
                connected == connected_pairs(paths@, starts@.take(i as int), ends@),
                connected <= i * ends@.len(),
            decreases starts@.len() - i,
        {
            let mut j: usize = 0;
            let mut row: u64 = 0;
            while j < ends.len()
                invariant
                    i < starts@.len(),
                    j <= ends@.len(),
                    row == connected_from(paths@, starts@[i as int], ends@.take(j as int)),
                    row <= j,
                decreases ends@.len() - j,
            {
                proof {
                    assert(ends@.take(j + 1).drop_last() =~= ends@.take(j as int));
                }
                if path_known_exec(paths, starts[i], ends[j]) {
                    row = row + 1;
                }
                j = j + 1;
            }
            proof {
                assert(ends@.take(ends@.len() as int) =~= ends@);
                assert(starts@.take(i + 1).drop_last() =~= starts@.take(i as int));
                assert((i + 1) * ends@.len() <= starts@.len() * ends@.len()) by (nonlinear_arith)
                    requires
                        i < starts@.len(),
                ;
                assert(i * ends@.len() + ends@.len() == (i + 1) * ends@.len()) by (nonlinear_arith);
            }
            connected = connected + row;
            i = i + 1;
        }
        proof {
            assert(starts@.take(starts@.len() as int) =~= starts@);
        }
        let total: u64 = (starts.len() as u64) * (ends.len() as u64);
        let passed = 5 * connected >= 4 * total;
        let mut message = String::new();
        message.append("Connectivity: ");
        push_decimal_u128(&mut message, connected as u128);
        message.append("/");
        push_decimal_u128(&mut message, total as u128);
        message.append(" paths connected");
        ConstraintResult { rule_id: rule.id.clone(), passed, severity: rule.severity, message }
    }

    /// An accessibility rule: every required objective is connected to the
    /// middle of the map, where the spawn is assumed; with none it passes.
    /// Which pairs the map's path search connects is given in `paths`.
    pub fn validate_accessibility(
        rule: &ConstraintRule,
        context: &ConstraintContext,
        paths: &Vec<((i32, i32), (i32, i32))>,
    ) -> (r: ConstraintResult)
        requires
            context.map.wf(),
        ensures
            accessibility_outcome(*rule, *context, paths@, r),
    {
        let req = required_objectives(&context.objectives);
        if req.len() == 0 {
            return ConstraintResult {
                rule_id: rule.id.clone(),
                passed: true,
                severity: rule.severity,
                message: String::from_str("No required objectives to validate"),
            };
        }
        let spawn = ((context.map.width as i32) / 2, (context.map.height as i32) / 2);
        let mut reached: usize = 0;
        let mut j: usize = 0;
        while j < req.len()
            invariant
                j <= req@.len(),
                spawn == map_centre(*context.map),
                reached == connected_from(paths@, spawn, req@.take(j as int)),
                reached <= j,
            decreases req@.len() - j,
        {
            proof {
                assert(req@.take(j + 1).drop_last() =~= req@.take(j as int));
            }
            if path_known_exec(paths, spawn, req[j]) {
                reached = reached + 1;
            }
            j = j + 1;
        }
        proof {
            assert(req@.take(req@.len() as int) =~= req@);
        }
        let passed = reached == req.len();
        let mut message = String::new();
        message.append("Accessibility: ");
        push_decimal_usize(&mut message, reached);
        message.append("/");
        push_decimal_usize(&mut message, req.len());
        message.append(" objectives reachable");
        ConstraintResult { rule_id: rule.id.clone(), passed, severity: rule.severity, message }
    }
}

/// What the breadth-first path search promises of a length `r` from `s` to
/// `e`: at most 100; 0 when the start cell cannot be walked on; when
/// positive, a walk of that many steps.
pub open spec fn path_length_ok(m: TileMap, s: (i32, i32), e: (i32, i32), r: u32) -> bool {
    &&& r <= 100
    &&& ((raw_index(&m, s) < 0 || raw_index(&m, s) >= m.tiles@.len() || !tile_walkable(m.tiles@[raw_index(&m, s)])) ==> r == 0)
    &&& (r > 0 ==> walk(&m, (s.0 as int, s.1 as int), (e.0 as int, e.1 as int), r as nat))
}

/// Positive lengths.
pub open spec fn count_positive(ls: Seq<u32>) -> nat
    decreases ls.len(),
{
    if ls.len() == 0 {
        0
    } else {
        count_positive(ls.drop_last()) + (if ls.last() > 0 { 1nat } else { 0nat })
    }
}

/// Positive lengths between `lo` and `hi`.
pub open spec fn count_between(ls: Seq<u32>, lo: int, hi: int) -> nat
    decreases ls.len(),
{
    if ls.len() == 0 {
        0
    } else {
        count_between(ls.drop_last(), lo, hi) + (if ls.last() > 0 && lo <= ls.last() <= hi { 1nat } else { 0nat })
    }
}

proof fn lemma_count_between_le(ls: Seq<u32>, lo: int, hi: int)
    ensures
        count_between(ls, lo, hi) <= count_positive(ls),
        count_positive(ls) <= ls.len(),
    decreases ls.len(),
{
    if ls.len() > 0 {
        lemma_count_between_le(ls.drop_last(), lo, hi);
    }
}

/// The objective-accessibility verdict and message for the path lengths
/// `ls` found to the required objectives.
pub open spec fn objective_result(ls: Seq<u32>, lo: int, hi: int, r: ConstraintResult) -> bool {
    let acc = count_positive(ls);
    let valid = count_between(ls, lo, hi);
    let req = ls.len();
    &&& r.passed == ((req == 0 || 10 * acc >= 9 * req) && (acc == 0 || 10 * valid >= 7 * acc))
    &&& r.message@ == "Objectives: "@ + decimal(acc) + "/"@ + decimal(req) + " accessible, "@ + decimal(valid) + "/"@
        + decimal(acc) + " valid complexity"@
}

impl ConstraintSystem {
    /// An objective-accessibility rule: nine in ten required objectives are
    /// reachable from the middle of the map, and seven in ten of those at a
    /// path length between its minimum and maximum complexity (3 and 50
    /// unless given). The lengths are those the breadth-first search finds;
    /// whatever they are within its promise, the verdict follows from them.
    pub fn validate_objective_accessibility(rule: &ConstraintRule, context: &ConstraintContext) -> (r: ConstraintResult)
        requires
            context.map.wf(),
            context.map.tiles@.len() + context.map.width <= i32::MAX,
        ensures
            objective_accessibility_outcome(*rule, *context, r),
    {
        let lo: u32 = match extract_u32(&rule.parameters, "min_path_complexity") {
            Some(v) => v,
            None => 3,
        };
        let hi: u32 = match extract_u32(&rule.parameters, "max_path_complexity") {
            Some(v) => v,
            None => 50,
        };
        let m = context.map;
        let req = required_objectives(&context.objectives);
        let spawn = ((m.width as i32) / 2, (m.height as i32) / 2);
        proof {
            assert(m.width * m.height + m.width <= i32::MAX);
            assert((m.height / 2) * m.width + m.width / 2 <= m.width * m.height + m.width) by (nonlinear_arith)
                requires
                    m.width >= 0,
                    m.height >= 0,
            ;
            assert(spawn == map_centre(*m));
            assert(0 <= (m.height / 2) * m.width) by (nonlinear_arith)
                requires
                    m.width >= 0,
                    m.height >= 0,
            ;
        }
        let ghost mut ls: Seq<u32> = Seq::empty();
        let mut acc: usize = 0;
        let mut valid: usize = 0;
        let mut j: usize = 0;
        while j < req.len()
            invariant
                m.wf(),
                spawn == map_centre(*m),
                i32::MIN <= raw_index(m, spawn) <= i32::MAX,
                j <= req@.len(),
                ls.len() == j,
                forall|k: int| 0 <= k < j ==> path_length_ok(*m, spawn, req@[k], #[trigger] ls[k]),
                acc == count_positive(ls),
                valid == count_between(ls, lo as int, hi as int),
                valid <= acc,
                acc <= j,
            decreases req@.len() - j,
        {
            let len = Self::calculate_path_length(m, spawn, req[j]);
            proof {
                assert(ls.push(len).drop_last() =~= ls);
                ls = ls.push(len);
                lemma_count_between_le(ls, lo as int, hi as int);
            }
            if len > 0 {
                acc = acc + 1;
                if len >= lo && len <= hi {
                    valid = valid + 1;
                }
            }
            j = j + 1;
        }
        let n = req.len();
        let passed = (n == 0 || 10 * (acc as u128) >= 9 * (n as u128)) && (acc == 0 || 10 * (valid as u128) >= 7 * (acc as u128));
        let mut message = String::new();
        message.append("Objectives: ");
        push_decimal_usize(&mut message, acc);
        message.append("/");
        push_decimal_usize(&mut message, n);
        message.append(" accessible, ");
        push_decimal_usize(&mut message, valid);
        message.append("/");
        push_decimal_usize(&mut message, acc);
        message.append(" valid complexity");
        let r = ConstraintResult { rule_id: rule.id.clone(), passed, severity: rule.severity, message };
        proof {
            assert(lo == or_default(u32_param(rule.parameters@, "min_path_complexity"@), 3u32));
            assert(hi == or_default(u32_param(rule.parameters@, "max_path_complexity"@), 50u32));
            assert(objective_result(
                ls,
                or_default(u32_param(rule.parameters@, "min_path_complexity"@), 3u32) as int,
                or_default(u32_param(rule.parameters@, "max_path_complexity"@), 50u32) as int,
                r,
            ));
        }
        r
    }
}

/// What the dead-end search promises of a depth `d` found from `(x, y)`: at
/// most ten, and none where the cell itself has more than two walkable
/// neighbours.
pub open spec fn dead_end_ok(m: TileMap, p: (i32, i32), d: u32) -> bool {
    d <= 10 && (adjacent_floor_count(&m, p.0 as int, p.1 as int) > 2 ==> d == 0)
}

/// The sampled walkable cells of row `y` among its first `k` sample
/// columns (every tenth column from the fifth).
pub open spec fn row_samples(m: TileMap, y: int, k: int) -> Seq<(i32, i32)>
    decreases k,
{
    if k <= 0 {
        Seq::empty()
    } else {
        let x = 5 + 10 * (k - 1);
        let rest = row_samples(m, y, k - 1);
        if x < m.width && m.walkable_at(x, y) {
            rest.push((x as i32, y as i32))
        } else {
            rest
        }
    }
}

/// The sampled walkable cells of the first `j` sample rows (every tenth
/// row from the fifth), row by row.
pub open spec fn samples(m: TileMap, j: int) -> Seq<(i32, i32)>
    decreases j,
{
    if j <= 0 {
        Seq::empty()
    } else {
        let y = 5 + 10 * (j - 1);
        samples(m, j - 1) + (if y < m.height { row_samples(m, y, sample_count(m.width as int)) } else { Seq::empty() })
    }
}

/// Sample positions below `n`: 5, 15, 25, ...
pub open spec fn sample_count(n: int) -> int {
    if n <= 5 { 0 } else { (n - 5 + 9) / 10 }
}

/// Sampled cells with at least `min` exit routes.
pub open spec fn with_exits(m: TileMap, ps: Seq<(i32, i32)>, min: int) -> nat
    decreases ps.len(),
{
    if ps.len() == 0 {
        0
    } else {
        with_exits(m, ps.drop_last(), min) + (if exit_route_count(&m, ps.last().0 as int, ps.last().1 as int) >= min {
            1nat
        } else {
            0nat
        })
    }
}

/// Depths beyond `max`.
pub open spec fn deeper_than(ds: Seq<u32>, max: int) -> nat
    decreases ds.len(),
{
    if ds.len() == 0 {
        0
    } else {
        deeper_than(ds.drop_last(), max) + (if ds.last() > max { 1nat } else { 0nat })
    }
}

/// The escape-route verdict and message for sampled cells `ps` with
/// dead-end depths `ds`: passing with no samples, else when the share of
/// samples with enough exits, less the share of deep dead ends (at most one
/// half), is at least 0.7.
pub open spec fn escape_result(m: TileMap, ps: Seq<(i32, i32)>, ds: Seq<u32>, min: int, max: int, r: ConstraintResult) -> bool {
    let v = with_exits(m, ps, min);
    let t = ps.len();
    let d = deeper_than(ds, max);
    &&& r.passed == (t == 0 || 10 * (v - d) >= 7 * t)
    &&& r.message@ == "Escape routes: "@ + decimal(v) + "/"@ + decimal(t) + " areas valid, "@ + decimal(d)
        + " deep dead ends"@
}

proof fn lemma_with_exits_bound(m: TileMap, ps: Seq<(i32, i32)>, min: int)
    ensures
        with_exits(m, ps, min) <= ps.len(),
    decreases ps.len(),
{
    if ps.len() > 0 {
        lemma_with_exits_bound(m, ps.drop_last(), min);
    }
}

proof fn lemma_deeper_bound(ds: Seq<u32>, max: int)
    ensures
        deeper_than(ds, max) <= ds.len(),
    decreases ds.len(),
{
    if ds.len() > 0 {
        lemma_deeper_bound(ds.drop_last(), max);
    }
}

proof fn lemma_with_exits_append(m: TileMap, a: Seq<(i32, i32)>, b: Seq<(i32, i32)>, min: int)
    ensures
        with_exits(m, a + b, min) == with_exits(m, a, min) + with_exits(m, b, min),
    decreases b.len(),
{
    if b.len() > 0 {
        lemma_with_exits_append(m, a, b.drop_last(), min);
        assert((a + b).drop_last() =~= a + b.drop_last());
    } else {
        assert(a + b =~= a);
    }
}

/// A walk of `d` steps over walkable cells from `p` to `q` none of whose
/// cells before `q` has more than two walkable neighbours.
pub open spec fn quiet_walk(m: TileMap, p: (int, int), q: (int, int), d: nat) -> bool {
    exists|path: Seq<(int, int)>| #[trigger] steps_ok(&m, path) && path.len() == d + 1 && path[0] == p && path[d as int] == q
        && forall|i: int| 0 <= i < d ==> adjacent_floor_count(&m, (#[trigger] path[i]).0, path[i].1) <= 2
}

impl ConstraintSystem {
    /// How far a dead end runs from a walkable cell: a depth-first search
    /// over walkable cells stops at the first cell with more than two
    /// walkable neighbours, at depth ten, or when it runs out of cells (ten).
    pub fn calculate_dead_end_depth(m: &TileMap, x: i32, y: i32) -> (d: u32)
        requires
            m.wf(),
            m.in_bounds_spec(x as int, y as int),
            m.width <= i32::MAX - 2,
            m.height <= i32::MAX - 2,
        ensures
            dead_end_ok(*m, (x, y), d),
            (d == 0) == (adjacent_floor_count(m, x as int, y as int) > 2),
            d < 10 ==> exists|q: (int, int)| adjacent_floor_count(m, q.0, q.1) > 2 && #[trigger] quiet_walk(
                *m,
                (x as int, y as int),
                q,
                d as nat,
            ),
    {
        let n = m.tiles.len();
        let mut visited: Vec<bool> = Vec::new();
        let mut k: usize = 0;
        while k < n
            invariant
                k <= n,
                visited@.len() == k,
            decreases n - k,
        {
            visited.push(false);
            k = k + 1;
        }
        let start = m.idx(x, y);
        visited.set(start, true);
        let mut stack: Vec<(i32, i32, u32)> = Vec::new();
        stack.push((x, y, 0));
        proof {
            let path = seq![(x as int, y as int)];
            assert(steps_ok(m, path));
            assert(quiet_walk(*m, (x as int, y as int), (stack@[0].0 as int, stack@[0].1 as int), stack@[0].2 as nat));
        }
        let mut first = true;
        while stack.len() > 0
            invariant
                m.wf(),
                m.width <= i32::MAX - 2,
                m.height <= i32::MAX - 2,
                n == m.tiles@.len(),
                visited@.len() == n,
                m.in_bounds_spec(x as int, y as int),
                forall|q: int| 0 <= q < stack@.len() ==> {
                    &&& (#[trigger] stack@[q]).2 <= 10
                    &&& m.in_bounds_spec(stack@[q].0 as int, stack@[q].1 as int)
                },
                first ==> stack@.len() == 1 && stack@[0] == (x, y, 0u32),
                !first ==> adjacent_floor_count(m, x as int, y as int) <= 2,
                forall|q: int| 0 <= q < stack@.len() ==> quiet_walk(
                    *m,
                    (x as int, y as int),
                    ((#[trigger] stack@[q]).0 as int, stack@[q].1 as int),
                    stack@[q].2 as nat,
                ),
                !first ==> forall|q: int| 0 <= q < stack@.len() ==> (#[trigger] stack@[q]).2 >= 1,
            decreases count_false(visited@), stack@.len(),
        {
            let ghost before = stack@;
            proof {
                assert(before[before.len() - 1].2 <= 10);
            }
            let (cx, cy, depth) = match stack.pop() {
                Some(e) => e,
                None => (x, y, 0),
            };
            proof {
                assert(before[before.len() - 1] == (cx, cy, depth));
                assert(quiet_walk(*m, (x as int, y as int), (cx as int, cy as int), depth as nat));
                assert(!first ==> depth >= 1);
            }
            let adj = Self::count_adjacent_floors(m, cx, cy);
            if adj > 2 {
                proof {
                    assert(adjacent_floor_count(m, cx as int, cy as int) > 2);
                }
                return depth;
            }
            first = false;
            if depth >= 10 {
                return depth;
            }
            let ghost vis0 = visited@;
            let ghost len0 = stack@.len();
            let dirs: [(i32, i32); 4] = [(0, 1), (1, 0), (0, -1), (-1, 0)];
            let mut i: usize = 0;
            let mut pushed = false;
            while i < 4
                invariant
                    m.wf(),
                    m.width <= i32::MAX - 2,
                    m.height <= i32::MAX - 2,
                    n == m.tiles@.len(),
                    visited@.len() == n,
                    i <= 4,
                    depth < 10,
                    m.in_bounds_spec(cx as int, cy as int),
                    dirs@ == seq![(0i32, 1i32), (1i32, 0i32), (0i32, -1i32), (-1i32, 0i32)],
                    forall|q: int| 0 <= q < stack@.len() ==> {
                        &&& (#[trigger] stack@[q]).2 <= 10
                        &&& m.in_bounds_spec(stack@[q].0 as int, stack@[q].1 as int)
                    },
                    count_false(visited@) <= count_false(vis0),
                    pushed ==> count_false(visited@) < count_false(vis0),
                    !pushed ==> stack@.len() == len0,
                    adjacent_floor_count(m, x as int, y as int) <= 2,
                    adjacent_floor_count(m, cx as int, cy as int) <= 2,
                    quiet_walk(*m, (x as int, y as int), (cx as int, cy as int), depth as nat),
                    forall|q: int| 0 <= q < stack@.len() ==> quiet_walk(
                        *m,
                        (x as int, y as int),
                        ((#[trigger] stack@[q]).0 as int, stack@[q].1 as int),
                        stack@[q].2 as nat,
                    ),
                    forall|q: int| 0 <= q < stack@.len() ==> (#[trigger] stack@[q]).2 >= 1,
                decreases 4 - i,
            {
                let (dx, dy) = dirs[i];
                let nx = cx + dx;
                let ny = cy + dy;
                if m.in_bounds(nx, ny) {
                    let idx = m.idx(nx, ny);
                    if !visited[idx] && m.tiles[idx].walkable() {
                        proof {
                            lemma_count_false_update(visited@, idx as int);
                        }
                        visited.set(idx, true);
                        let ghost st0 = stack@;
                        stack.push((nx, ny, depth + 1));
                        proof {
                            let path = choose|path: Seq<(int, int)>| #[trigger] steps_ok(m, path) && path.len() == depth + 1
                                && path[0] == (x as int, y as int) && path[depth as int] == (cx as int, cy as int) && forall|i: int|
                                0 <= i < depth ==> adjacent_floor_count(m, (#[trigger] path[i]).0, path[i].1) <= 2;
                            let np = path.push((nx as int, ny as int));
                            assert(m.walkable_at(nx as int, ny as int));
                            assert(dirs@[i as int] == (dx, dy));
                            assert(abs_int(nx - cx) + abs_int(ny - cy) == 1);
                            assert forall|j: int| 1 <= j < np.len() implies m.walkable_at(np[j].0, np[j].1) && abs_int(
                                #[trigger] np[j].0 - np[j - 1].0,
                            ) + abs_int(np[j].1 - np[j - 1].1) == 1 by {
                                if j < path.len() {
                                    assert(np[j] == path[j]);
                                    assert(np[j - 1] == path[j - 1]);
                                } else {
                                    assert(np[j - 1] == path[depth as int]);
                                }
                            }
                            assert(steps_ok(m, np));
                            assert forall|j: int| 0 <= j < depth + 1 implies adjacent_floor_count(m, (#[trigger] np[j]).0, np[j].1) <= 2 by {
                                if j < depth {
                                    assert(np[j] == path[j]);
                                } else {
                                    assert(np[j] == path[depth as int]);
                                }
                            }
                            assert(quiet_walk(*m, (x as int, y as int), (nx as int, ny as int), (depth + 1) as nat));
                            assert forall|q: int| 0 <= q < stack@.len() implies quiet_walk(
                                *m,
                                (x as int, y as int),
                                ((#[trigger] stack@[q]).0 as int, stack@[q].1 as int),
                                stack@[q].2 as nat,
                            ) by {
                                if q < st0.len() {
                                    assert(stack@[q] == st0[q]);
                                }
                            }
                        }
                        pushed = true;
                    }
                }
                i = i + 1;
            }
        }
        10
    }

    /// An escape-route rule: of the sampled walkable cells (every tenth
    /// column and row from the fifth), seven in ten have enough exit routes
    /// (2 unless given) once the share of dead ends deeper than its maximum
    /// (3 unless given), at most one half, is taken off. The dead-end depths
    /// are those the search finds; whatever they are within its promise, the
    /// verdict follows from them.
    pub fn validate_escape_route(rule: &ConstraintRule, context: &ConstraintContext) -> (r: ConstraintResult)
        requires
            context.map.wf(),
            context.map.width <= i32::MAX - 11,
            context.map.height <= i32::MAX - 11,
        ensures
            escape_route_outcome(*rule, *context, r),
    {
        let min: u32 = match extract_u32(&rule.parameters, "min_exit_routes") {
            Some(v) => v,
            None => 2,
        };
        let max: u32 = match extract_u32(&rule.parameters, "max_dead_end_depth") {
            Some(v) => v,
            None => 3,
        };
        let m = context.map;
        let w = m.width;
        let h = m.height;
        let ghost mut ps: Seq<(i32, i32)> = Seq::empty();
        let ghost mut ds: Seq<u32> = Seq::empty();
        let mut valid: u64 = 0;
        let mut total: u64 = 0;
        let mut deep: u64 = 0;
        let mut y: usize = 5;
        let ghost mut j: int = 0;
        while y < h
            invariant
                m.wf(),
                w == m.width,
                h == m.height,
                w <= i32::MAX - 11,
                h <= i32::MAX - 11,
                y == 5 + 10 * j,
                0 <= j,
                j <= sample_count(h as int),
                y < h ==> j < sample_count(h as int),
                y >= h ==> j == sample_count(h as int),
                total <= j * w,
                ps == samples(*m, j),
                ds.len() == ps.len(),
                forall|k: int| 0 <= k < ds.len() ==> dead_end_ok(*m, ps[k], #[trigger] ds[k]),
                total == ps.len(),
                valid == with_exits(*m, ps, min as int),
                deep == deeper_than(ds, max as int),
            decreases h + 10 - y,
        {
            let ghost row_start = ps;
            let mut x: usize = 5;
            let ghost mut i: int = 0;
            while x < w
                invariant
                    m.wf(),
                    w == m.width,
                    h == m.height,
                    w <= i32::MAX - 11,
                    h <= i32::MAX - 11,
                    y < h,
                    x == 5 + 10 * i,
                    0 <= i,
                    x < w ==> i < sample_count(w as int),
                    x >= w ==> i == sample_count(w as int),
                    j < sample_count(h as int),
                    y == 5 + 10 * j,
                    0 <= j,
                    total <= j * w + i,
                    ps == row_start + row_samples(*m, y as int, i),
                    ds.len() == ps.len(),
                    forall|k: int| 0 <= k < ds.len() ==> dead_end_ok(*m, ps[k], #[trigger] ds[k]),
                    total == ps.len(),
                    valid == with_exits(*m, ps, min as int),
                    deep == deeper_than(ds, max as int),
                decreases w + 10 - x,
            {
                proof {
                    assert(j * w + i <= h * w + w) by (nonlinear_arith)
                        requires
                            0 <= j < h,
                            0 <= i < w,
                            w >= 0,
                    ;
                    assert(h * w + w <= 0x8000_0000 * 0x8000_0000) by (nonlinear_arith)
                        requires
                            0 <= h <= i32::MAX,
                            0 <= w <= i32::MAX,
                    ;
                }
                if m.is_walkable(x as i32, y as i32) {
                    let exits = Self::count_exit_routes(m, x as i32, y as i32);
                    let depth = Self::calculate_dead_end_depth(m, x as i32, y as i32);
                    proof {
                        let p = (x as i32, y as i32);
                        lemma_with_exits_bound(*m, ps, min as int);
                        lemma_deeper_bound(ds, max as int);
                        assert(ps.push(p).drop_last() =~= ps);
                        assert(ds.push(depth).drop_last() =~= ds);
                        assert(row_samples(*m, y as int, i + 1) == row_samples(*m, y as int, i).push(p));
                        assert(row_start + row_samples(*m, y as int, i).push(p) =~= (row_start + row_samples(*m, y as int, i)).push(p));
                        ps = ps.push(p);
                        ds = ds.push(depth);
                    }
                    total = total + 1;
                    if exits >= min {
                        valid = valid + 1;
                    }
                    if depth > max {
                        deep = deep + 1;
                    }
                } else {
                    proof {
                        assert(row_samples(*m, y as int, i + 1) == row_samples(*m, y as int, i));
                    }
                }
                proof {
                    i = i + 1;
                }
                x = x + 10;
            }
            proof {
                assert(samples(*m, j + 1) == samples(*m, j) + row_samples(*m, y as int, sample_count(w as int)));
                assert(i <= w);
                assert(j * w + w == (j + 1) * w) by (nonlinear_arith);
                j = j + 1;
            }
            y = y + 10;
        }
        let passed = total == 0 || 10 * (valid as i128 - deep as i128) >= 7 * (total as i128);
        let mut message = String::new();
        message.append("Escape routes: ");
        push_decimal_u128(&mut message, valid as u128);
        message.append("/");
        push_decimal_u128(&mut message, total as u128);
        message.append(" areas valid, ");
        push_decimal_u128(&mut message, deep as u128);
        message.append(" deep dead ends");
        let r = ConstraintResult { rule_id: rule.id.clone(), passed, severity: rule.severity, message };
        proof {
            assert(escape_result(
                *m,
                ps,
                ds,
                or_default(u32_param(rule.parameters@, "min_exit_routes"@), 2u32) as int,
                or_default(u32_param(rule.parameters@, "max_dead_end_depth"@), 3u32) as int,
                r,
            ));
        }
        r
    }
}

/// The outcome of a balance rule, as `validate_balance` gives it.
pub open spec fn balance_outcome(rule: ConstraintRule, context: ConstraintContext, r: ConstraintResult) -> bool {
    &&& result_for(rule, r)
    &&& ({
        let min = or_default(u32_param(rule.parameters@, "min_amount"@), 1u32);
        let max = or_default(u32_param(rule.parameters@, "max_amount"@), 100u32);
        let total = balance_total(rule, context);
        &&& r.passed == (min <= total <= max)
        &&& r.message@ == "Balance: "@ + decimal(total) + " resources (range: "@ + decimal(min as nat) + "-"@
            + decimal(max as nat) + ")"@
    })
}

/// The outcome of a placement rule, as `validate_placement` gives it.
pub open spec fn placement_outcome(rule: ConstraintRule, context: ConstraintContext, r: ConstraintResult) -> bool {
    &&& result_for(rule, r)
    &&& ({
        let n = entity_count(context.entities@, text_param(rule.parameters@, "entity_type"@));
        let forbidden = texts_param(rule.parameters@, "forbidden_biomes"@).contains(biome_name(context.biome));
        &&& r.passed == (n == 0 || !forbidden)
        &&& r.message@ == "Placement: "@ + decimal(n) + " entities in "@ + biome_name(context.biome) + " biome"@
    })
}

/// The outcome of a resource rule, as `validate_resource` gives it.
pub open spec fn resource_outcome(rule: ConstraintRule, context: ConstraintContext, r: ConstraintResult) -> bool {
    &&& result_for(rule, r)
    &&& ({
        let d = or_default(millionths_param(rule.parameters@, "max_density"@), 100_000);
        let cap = resource_cap(context.map.width * context.map.height, d);
        &&& r.passed == (context.resources@.len() <= cap)
        &&& r.message@ == "Resource density: "@ + decimal(context.resources@.len()) + "/"@ + decimal(cap as nat)
            + " resources"@
    })
}

/// The outcome of a distance rule, as `validate_distance` gives it.
pub open spec fn distance_outcome(rule: ConstraintRule, context: ConstraintContext, r: ConstraintResult) -> bool {
    &&& result_for(rule, r)
    &&& ({
        let ps = positions_of_type(context.entities@, text_param(rule.parameters@, "entity_type"@));
        let min = or_default(millionths_param(rule.parameters@, "min_distance"@), 5_000_000);
        let max = or_default(millionths_param(rule.parameters@, "max_distance"@), 50_000_000);
        let valid = pairs_in_range(ps, min, max);
        let total = ps.len() * (ps.len() - 1) / 2;
        if ps.len() < 2 {
            &&& r.passed
            &&& r.message@ == "Insufficient entities for distance validation"@
        } else {
            &&& r.passed == (10 * valid >= 7 * total)
            &&& r.message@ == "Distance: "@ + decimal(valid) + "/"@ + decimal(total as nat) + " pairs within range"@
        }
    })
}

/// The outcome of a safe zone rule, as `validate_safe_zone` gives it.
pub open spec fn safe_zone_outcome(rule: ConstraintRule, context: ConstraintContext, r: ConstraintResult) -> bool {
    &&& result_for(rule, r)
    &&& ({
        let min = or_default(u32_param(rule.parameters@, "min_safe_distance"@), 5u32);
        let req = or_default(millionths_param(rule.parameters@, "safe_zone_coverage"@), 300_000);
        let enemies = positions_of_type(context.entities@, Some("enemy"@));
        let safe = safe_in_rows(*context.map, context.map.height as int, enemies, min as int);
        let total = count_walkable(context.map.tiles@);
        &&& r.passed == (total > 0 && safe * 1_000_000 >= req * total)
        &&& r.message@ == "Safe zones: "@ + percent_text(safe, total) + "% coverage ("@ + decimal(safe)
            + " safe tiles)"@
    })
}

/// The outcome of a tactical rule, as `validate_tactical` gives it.
pub open spec fn tactical_outcome(rule: ConstraintRule, context: ConstraintContext, r: ConstraintResult) -> bool {
    &&& result_for(rule, r)
    &&& ({
        let mn = or_default(u32_param(rule.parameters@, "min_chokepoints"@), 2u32);
        let ratio = or_default(millionths_param(rule.parameters@, "max_open_ratio"@), 400_000);
        let c = tactical_in_rows(*context.map, context.map.height - 1, true);
        let o = tactical_in_rows(*context.map, context.map.height - 1, false);
        let t = count_walkable(context.map.tiles@);
        &&& r.passed == tactical_passes(c as int, mn as int, o as int, t as int, ratio)
        &&& r.message@ == "Tactical: "@ + decimal(c) + " chokepoints, "@ + percent_text(o, t) + "% open areas"@
    })
}

/// The outcome of a connectivity rule, as `validate_connectivity` gives it.
pub open spec fn connectivity_outcome(rule: ConstraintRule, context: ConstraintContext, paths: Seq<((i32, i32), (i32, i32))>, r: ConstraintResult) -> bool {
    &&& result_for(rule, r)
    &&& ({
        let starts = points_param(rule.parameters@, "start_points"@);
        let ends = points_param(rule.parameters@, "end_points"@);
        let connected = connected_pairs(paths, starts, ends);
        let total = starts.len() * ends.len();
        if starts.len() == 0 || ends.len() == 0 {
            &&& r.passed
            &&& r.message@ == "No connectivity points to validate"@
        } else {
            &&& r.passed == (5 * connected >= 4 * total)
            &&& r.message@ == "Connectivity: "@ + decimal(connected) + "/"@ + decimal(total) + " paths connected"@
        }
    })
}

/// The outcome of a accessibility rule, as `validate_accessibility` gives it.
pub open spec fn accessibility_outcome(rule: ConstraintRule, context: ConstraintContext, paths: Seq<((i32, i32), (i32, i32))>, r: ConstraintResult) -> bool {
    &&& result_for(rule, r)
    &&& ({
        let req = required_positions(context.objectives@);
        let reached = connected_from(paths, map_centre(*context.map), req);
        if req.len() == 0 {
            &&& r.passed
            &&& r.message@ == "No required objectives to validate"@
        } else {
            &&& r.passed == (reached == req.len())
            &&& r.message@ == "Accessibility: "@ + decimal(reached) + "/"@ + decimal(req.len())
                + " objectives reachable"@
        }
    })
}

/// The outcome of a objective accessibility rule, as `validate_objective_accessibility` gives it.
pub open spec fn objective_accessibility_outcome(rule: ConstraintRule, context: ConstraintContext, r: ConstraintResult) -> bool {
    &&& result_for(rule, r)
    &&& exists|ls: Seq<u32>| {
        let req = required_positions(context.objectives@);
        &&& ls.len() == req.len()
        &&& forall|k: int| 0 <= k < ls.len() ==> path_length_ok(*context.map, map_centre(*context.map), req[k], #[trigger] ls[k])
        &&& #[trigger] objective_result(
            ls,
            or_default(u32_param(rule.parameters@, "min_path_complexity"@), 3u32) as int,
            or_default(u32_param(rule.parameters@, "max_path_complexity"@), 50u32) as int,
            r,
        )
    }
}

/// The outcome of a escape route rule, as `validate_escape_route` gives it.
pub open spec fn escape_route_outcome(rule: ConstraintRule, context: ConstraintContext, r: ConstraintResult) -> bool {
    &&& result_for(rule, r)
    &&& exists|ds: Seq<u32>| {
        &&& ds.len() == samples(*context.map, sample_count(context.map.height as int)).len()
        &&& forall|k: int| 0 <= k < ds.len() ==> dead_end_ok(
            *context.map,
            samples(*context.map, sample_count(context.map.height as int))[k],
            #[trigger] ds[k],
        )
        &&& #[trigger] escape_result(
            *context.map,
            samples(*context.map, sample_count(context.map.height as int)),
            ds,
            or_default(u32_param(rule.parameters@, "min_exit_routes"@), 2u32) as int,
            or_default(u32_param(rule.parameters@, "max_dead_end_depth"@), 3u32) as int,
            r,
        )
    }
}

/// What a rule's check needs of its inputs, by kind.
pub open spec fn rule_checkable(rule: ConstraintRule, context: ConstraintContext) -> bool {
    match rule.constraint_type {
        ConstraintType::Connectivity => points_param(rule.parameters@, "start_points"@).len() * points_param(
            rule.parameters@,
            "end_points"@,
        ).len() <= i32::MAX,
        ConstraintType::Distance => {
            &&& close_enough(positions_of_type(context.entities@, text_param(rule.parameters@, "entity_type"@)))
            &&& ({
                let n = positions_of_type(context.entities@, text_param(rule.parameters@, "entity_type"@)).len();
                n * (n - 1) / 2 <= i32::MAX
            })
        },
        ConstraintType::Accessibility => context.map.wf(),
        ConstraintType::Balance => {
            &&& context.map.tiles@.len() <= u32::MAX
            &&& resource_total(context.resources@, text_param(rule.parameters@, "resource_type"@)) <= u32::MAX
        },
        ConstraintType::Placement => true,
        ConstraintType::Resource => context.map.width * context.map.height <= usize::MAX,
        ConstraintType::Tactical => {
            &&& context.map.wf()
            &&& context.map.tiles@.len() <= i32::MAX
            &&& context.map.height >= 1
            &&& (context.map.height >= 3 ==> context.map.width >= 1)
        },
        ConstraintType::SafeZone => {
            &&& context.map.wf()
            &&& context.map.tiles@.len() <= i32::MAX
            &&& enemies_near_map(*context.map, positions_of_type(context.entities@, Some("enemy"@)))
        },
        ConstraintType::EscapeRoute => {
            &&& context.map.wf()
            &&& context.map.width <= i32::MAX - 11
            &&& context.map.height <= i32::MAX - 11
        },
        ConstraintType::ObjectiveAccessibility => {
            &&& context.map.wf()
            &&& context.map.tiles@.len() + context.map.width <= i32::MAX
        },
    }
}

/// The outcome of a rule, by kind.
pub open spec fn rule_outcome(
    rule: ConstraintRule,
    context: ConstraintContext,
    paths: Seq<((i32, i32), (i32, i32))>,
    r: ConstraintResult,
) -> bool {
    match rule.constraint_type {
        ConstraintType::Connectivity => connectivity_outcome(rule, context, paths, r),
        ConstraintType::Distance => distance_outcome(rule, context, r),
        ConstraintType::Accessibility => accessibility_outcome(rule, context, paths, r),
        ConstraintType::Balance => balance_outcome(rule, context, r),
        ConstraintType::Placement => placement_outcome(rule, context, r),
        ConstraintType::Resource => resource_outcome(rule, context, r),
        ConstraintType::Tactical => tactical_outcome(rule, context, r),
        ConstraintType::SafeZone => safe_zone_outcome(rule, context, r),
        ConstraintType::EscapeRoute => escape_route_outcome(rule, context, r),
        ConstraintType::ObjectiveAccessibility => objective_accessibility_outcome(rule, context, r),
    }
}

/// The enabled rules, in order.
pub open spec fn enabled_rules(rules: Seq<ConstraintRule>) -> Seq<ConstraintRule>
    decreases rules.len(),
{
    if rules.len() == 0 {
        Seq::empty()
    } else {
        let rest = enabled_rules(rules.drop_last());
        if rules.last().enabled {
            rest.push(rules.last())
        } else {
            rest
        }
    }
}

impl ConstraintSystem {
    /// Check one rule by its kind. Which pairs of cells the map's path
    /// search connects is given in `paths`; the random source is not drawn
    /// from.
    pub fn validate_constraint(
        rule: &ConstraintRule,
        context: &ConstraintContext,
        paths: &Vec<((i32, i32), (i32, i32))>,
        _rng: &mut ChaCha8Rng,
    ) -> (r: ConstraintResult)
        requires
            rule_checkable(*rule, *context),
        ensures
            rule_outcome(*rule, *context, paths@, r),
    {
        match rule.constraint_type {
            ConstraintType::Connectivity => Self::validate_connectivity(rule, context, paths),
            ConstraintType::Distance => Self::validate_distance(rule, context),
            ConstraintType::Accessibility => Self::validate_accessibility(rule, context, paths),
            ConstraintType::Balance => Self::validate_balance(rule, context),
            ConstraintType::Placement => Self::validate_placement(rule, context),
            ConstraintType::Resource => Self::validate_resource(rule, context),
            ConstraintType::Tactical => Self::validate_tactical(rule, context),
            ConstraintType::SafeZone => Self::validate_safe_zone(rule, context),
            ConstraintType::EscapeRoute => Self::validate_escape_route(rule, context),
            ConstraintType::ObjectiveAccessibility => Self::validate_objective_accessibility(rule, context),
        }
    }

    /// Check every enabled rule, in order.
    pub fn validate_constraints(
        rules: &Vec<ConstraintRule>,
        context: &ConstraintContext,
        paths: &Vec<((i32, i32), (i32, i32))>,
        rng: &mut ChaCha8Rng,
    ) -> (results: Vec<ConstraintResult>)
        requires
            forall|k: int| 0 <= k < rules@.len() && (#[trigger] rules@[k]).enabled ==> rule_checkable(rules@[k], *context),
        ensures
            results@.len() == enabled_rules(rules@).len(),
            forall|k: int| 0 <= k < results@.len() ==> rule_outcome(enabled_rules(rules@)[k], *context, paths@, #[trigger] results@[k]),
    {
        let mut results: Vec<ConstraintResult> = Vec::new();
        let mut i: usize = 0;
        while i < rules.len()
            invariant
                i <= rules@.len(),
                forall|k: int| 0 <= k < rules@.len() && (#[trigger] rules@[k]).enabled ==> rule_checkable(rules@[k], *context),
                results@.len() == enabled_rules(rules@.take(i as int)).len(),
                forall|k: int| 0 <= k < results@.len() ==> rule_outcome(enabled_rules(rules@.take(i as int))[k], *context, paths@, #[trigger] results@[k]),
            decreases rules@.len() - i,
        {
            proof {
                assert(rules@.take(i + 1).drop_last() =~= rules@.take(i as int));
                assert(rules@.take(i + 1).last() == rules@[i as int]);
            }
            if rules[i].enabled {
                let r = Self::validate_constraint(&rules[i], context, paths, rng);
                results.push(r);
            }
            i = i + 1;
        }
        proof {
            assert(rules@.take(rules@.len() as int) =~= rules@);
        }
        results
    }
}

} // verus!

verus! {

/// Every start paired with every end, start by start.
pub open spec fn cross_pairs(starts: Seq<(i32, i32)>, ends: Seq<(i32, i32)>) -> Seq<((i32, i32), (i32, i32))>
    decreases starts.len(),
{
    if starts.len() == 0 {
        Seq::empty()
    } else {
        let s = starts.last();
        cross_pairs(starts.drop_last(), ends) + ends.map_values(|e: (i32, i32)| (s, e))
    }
}

/// The spawn paired with each required objective, in order.
pub open spec fn objective_pairs(os: Seq<ObjectivePlacement>, spawn: (i32, i32)) -> Seq<((i32, i32), (i32, i32))>
    decreases os.len(),
{
    if os.len() == 0 {
        Seq::empty()
    } else {
        let rest = objective_pairs(os.drop_last(), spawn);
        if os.last().required { rest.push((spawn, (os.last().x, os.last().y))) } else { rest }
    }
}

/// The cell pairs a rule asks a path search about: a connectivity rule each
/// start with each end; an accessibility rule the spawn with each required
/// objective; other rules, and disabled ones, none.
pub open spec fn rule_queries(r: ConstraintRule, os: Seq<ObjectivePlacement>, spawn: (i32, i32)) -> Seq<((i32, i32), (i32, i32))> {
    if !r.enabled {
        Seq::empty()
    } else {
        match r.constraint_type {
            ConstraintType::Connectivity => cross_pairs(
                points_param(r.parameters@, "start_points"@),
                points_param(r.parameters@, "end_points"@),
            ),
            ConstraintType::Accessibility => objective_pairs(os, spawn),
            _ => Seq::empty(),
        }
    }
}

/// The queries of all rules, rule by rule.
pub open spec fn all_queries(rules: Seq<ConstraintRule>, os: Seq<ObjectivePlacement>, spawn: (i32, i32)) -> Seq<
    ((i32, i32), (i32, i32)),
>
    decreases rules.len(),
{
    if rules.len() == 0 {
        Seq::empty()
    } else {
        all_queries(rules.drop_last(), os, spawn) + rule_queries(rules.last(), os, spawn)
    }
}

/// The cell pairs the rules want a path search to settle, with the spawn at
/// the centre of the map; the pairs found connected are what
/// `validate_constraints` takes as known paths.
pub fn path_queries(rules: &Vec<ConstraintRule>, context: &ConstraintContext) -> (q: Vec<((i32, i32), (i32, i32))>)
    requires
        context.map.width <= i32::MAX,
        context.map.height <= i32::MAX,
    ensures
        q@ == all_queries(
            rules@,
            context.objectives@,
            ((context.map.width / 2) as i32, (context.map.height / 2) as i32),
        ),
{
    let spawn: (i32, i32) = ((context.map.width / 2) as i32, (context.map.height / 2) as i32);
    let ghost os = context.objectives@;
    let mut q: Vec<((i32, i32), (i32, i32))> = Vec::new();
    let mut i: usize = 0;
    while i < rules.len()
        invariant
            i <= rules@.len(),
            os == context.objectives@,
            q@ == all_queries(rules@.take(i as int), os, spawn),
        decreases rules@.len() - i,
    {
        proof {
            assert(rules@.take(i + 1).drop_last() =~= rules@.take(i as int));
            assert(rules@.take(i + 1).last() == rules@[i as int]);
        }
        let rule = &rules[i];
        let ghost before = q@;
        if rule.enabled {
            match rule.constraint_type {
                ConstraintType::Connectivity => {
                    let starts = extract_positions(&rule.parameters, "start_points");
                    let ends = extract_positions(&rule.parameters, "end_points");
                    let mut a: usize = 0;
                    while a < starts.len()
                        invariant
                            a <= starts@.len(),
                            q@ == before + cross_pairs(starts@.take(a as int), ends@),
                        decreases starts@.len() - a,
                    {
                        let ghost mid = q@;
                        let mut b: usize = 0;
                        while b < ends.len()
                            invariant
                                a < starts@.len(),
                                b <= ends@.len(),
                                q@ == mid + ends@.take(b as int).map_values(|e: (i32, i32)| (starts@[a as int], e)),
                            decreases ends@.len() - b,
                        {
                            q.push((starts[a], ends[b]));
                            proof {
                                assert(ends@.take(b + 1).map_values(|e: (i32, i32)| (starts@[a as int], e)) =~= ends@.take(
                                    b as int,
                                ).map_values(|e: (i32, i32)| (starts@[a as int], e)).push((starts@[a as int], ends@[b as int])));
                            }
                            b = b + 1;
                        }
                        proof {
                            assert(ends@.take(ends@.len() as int) =~= ends@);
                            assert(starts@.take(a + 1).drop_last() =~= starts@.take(a as int));
                            assert(starts@.take(a + 1).last() == starts@[a as int]);
                            assert(q@ =~= before + cross_pairs(starts@.take(a + 1), ends@));
                        }
                        a = a + 1;
                    }
                    proof {
                        assert(starts@.take(starts@.len() as int) =~= starts@);
                    }
                },
                ConstraintType::Accessibility => {
                    let mut o: usize = 0;
                    while o < context.objectives.len()
                        invariant
                            o <= os.len(),
                            os == context.objectives@,
                            q@ == before + objective_pairs(os.take(o as int), spawn),
                        decreases os.len() - o,
                    {
                        proof {
                            assert(os.take(o + 1).drop_last() =~= os.take(o as int));
                            assert(os.take(o + 1).last() == os[o as int]);
                        }
                        let ob = &context.objectives[o];
                        if ob.required {
                            q.push((spawn, (ob.x, ob.y)));
                        }
                        proof {
                            assert(q@ =~= before + objective_pairs(os.take(o + 1), spawn));
                        }
                        o = o + 1;
                    }
                    proof {
                        assert(os.take(os.len() as int) =~= os);
                    }
                },
                _ => {
                    proof {
                        assert(q@ =~= before + Seq::<((i32, i32), (i32, i32))>::empty());
                    }
                },
            }
        } else {
            proof {
                assert(q@ =~= before + Seq::<((i32, i32), (i32, i32))>::empty());
            }
        }
        i = i + 1;
    }
    proof {
        assert(rules@.take(rules@.len() as int) =~= rules@);
    }
    q
}

/// Adding a resource to the list adds its amount to the total of its own
/// type and to the total of every type, and nothing to the total of any
/// other type.
pub proof fn law_resource_total_push(rs: Seq<ResourcePlacement>, r: ResourcePlacement, k: Seq<char>)
    ensures
        resource_total(rs.push(r), None) == resource_total(rs, None) + r.amount,
        r.resource_type@ == k ==> resource_total(rs.push(r), Some(k)) == resource_total(rs, Some(k)) + r.amount,
        r.resource_type@ != k ==> resource_total(rs.push(r), Some(k)) == resource_total(rs, Some(k)),
{
    assert(rs.push(r).drop_last() =~= rs);
}

/// With no resources there is nothing to count.
pub proof fn law_resource_total_empty(kind: Option<Seq<char>>)
    ensures
        resource_total(Seq::empty(), kind) == 0,
{
}

/// Totals add up over a list split in two.
pub proof fn law_resource_total_concat(a: Seq<ResourcePlacement>, b: Seq<ResourcePlacement>, kind: Option<Seq<char>>)
    ensures
        resource_total(a + b, kind) == resource_total(a, kind) + resource_total(b, kind),
    decreases b.len(),
{
    if b.len() == 0 {
        assert(a + b =~= a);
    } else {
        law_resource_total_concat(a, b.drop_last(), kind);
        assert((a + b).drop_last() =~= a + b.drop_last());
        assert((a + b).last() == b.last());
    }
}

/// The total of one type never exceeds the total of all types.
pub proof fn law_resource_total_of_type_within_all(rs: Seq<ResourcePlacement>, k: Seq<char>)
    ensures
        resource_total(rs, Some(k)) <= resource_total(rs, None),
    decreases rs.len(),
{
    if rs.len() > 0 {
        law_resource_total_of_type_within_all(rs.drop_last(), k);
    }
}

/// A balance rule naming a resource type counts only that type: one more
/// resource of another type leaves its total alone, one more of that type
/// raises it by the amount, and a rule is passed exactly when the total lies
/// within its bounds.
pub proof fn law_balance_counts_named_type(
    rule: ConstraintRule,
    c1: ConstraintContext,
    c2: ConstraintContext,
    r: ResourcePlacement,
    k: Seq<char>,
    res: ConstraintResult,
)
    requires
        text_param(rule.parameters@, "resource_type"@) == Some(k),
        k != "open_space"@,
        c2.resources@ == c1.resources@.push(r),
    ensures
        r.resource_type@ != k ==> balance_total(rule, c2) == balance_total(rule, c1),
        r.resource_type@ == k ==> balance_total(rule, c2) == balance_total(rule, c1) + r.amount,
        balance_outcome(rule, c1, res) ==> (res.passed <==> (or_default(u32_param(rule.parameters@, "min_amount"@), 1u32)
            <= balance_total(rule, c1) <= or_default(u32_param(rule.parameters@, "max_amount"@), 100u32))),
{
    law_resource_total_push(c1.resources@, r, k);
}

} // verus!
