//! A small text grammar: a rule expands to one of its expansions, where
//! `<name>` inside an expansion stands for the expansion of rule `name` (or
//! the value of context variable `name`). Weights are integers.

use vstd::prelude::*;
use rand_chacha::ChaCha8Rng;
use crate::rng::{gen_range_u32, gen_range_usize};
use crate::structure_library::chars_of;
use crate::text::push_char;
use crate::weighted::{weight_sum, pick_from, total_weight, pick_by_roll, law_roll_lands, lemma_pick_in_range};
use crate::events::{entry_of, vars_view, entry_index};

verus! {

/// A rule: its expansions and, optionally, one weight per expansion.
#[derive(Debug, Clone)]
pub struct GrammarRule {
    pub expansions: Vec<String>,
    pub weights: Option<Vec<u32>>,
}

/// Rules by name; each name occurs once.
#[derive(Debug, Clone)]
pub struct Grammar {
    pub rules: Vec<(String, GrammarRule)>,
}

/// Variables that stand in for rules; each name occurs once.
#[derive(Debug, Clone)]
pub struct GrammarContext {
    pub variables: Vec<(String, String)>,
}

/// A piece of an expansion: literal text, or a reference to a rule.
#[derive(Debug)]
pub enum Segment {
    Text(String),
    Rule(String),
}

/// A segment as plain values: `(true, name)` for a reference, `(false, text)`
/// for literal text.
pub open spec fn seg_view(s: Segment) -> (bool, Seq<char>) {
    match s {
        Segment::Text(t) => (false, t@),
        Segment::Rule(n) => (true, n@),
    }
}

/// Segments as plain values.
pub open spec fn segs_view(v: Seq<Segment>) -> Seq<(bool, Seq<char>)> {
    v.map_values(|s: Segment| seg_view(s))
}

/// Position of the first `>`.
pub open spec fn close_index(t: Seq<char>) -> Option<int>
    decreases t.len(),
{
    if t.len() == 0 {
        None
    } else if t[0] == '>' {
        Some(0)
    } else {
        match close_index(t.drop_first()) {
            Some(k) => Some(k + 1),
            None => None,
        }
    }
}

pub proof fn lemma_close_in_range(t: Seq<char>)
    ensures
        close_index(t) matches Some(k) ==> 0 <= k < t.len(),
    decreases t.len(),
{
    if t.len() > 0 {
        lemma_close_in_range(t.drop_first());
    }
}

/// The segments of an expansion, read left to right. `<name>` with a
/// non-empty name is a reference; `<>` reads as the text `<`; a `<` with no
/// closing `>` reads as literal text to the end.
pub open spec fn segments_of(s: Seq<char>) -> Seq<(bool, Seq<char>)>
    decreases s.len(),
{
    if s.len() == 0 {
        Seq::empty()
    } else if s[0] != '<' {
        seq![(false, seq![s[0]])] + segments_of(s.drop_first())
    } else {
        let rest = s.drop_first();
        proof {
            lemma_close_in_range(rest);
        }
        match close_index(rest) {
            Some(k) => if k > 0 {
                seq![(true, rest.subrange(0, k))] + segments_of(rest.subrange(k + 1, rest.len() as int))
            } else {
                seq![(false, seq!['<'])] + segments_of(rest.subrange(k + 1, rest.len() as int))
            },
            None => seq![(false, seq!['<'] + rest)],
        }
    }
}

proof fn lemma_close_index(t: Seq<char>, k: int)
    requires
        0 <= k <= t.len(),
        forall|m: int| 0 <= m < k ==> t[m] != '>',
    ensures
        k < t.len() && t[k] == '>' ==> close_index(t) == Some(k),
        k == t.len() ==> close_index(t) is None,
    decreases k,
{
    if k > 0 {
        lemma_close_index(t.drop_first(), k - 1);
    }
}

/// Split an expansion into its segments.
pub fn parse_expansion(expansion: &String) -> (segs: Vec<Segment>)
    ensures
        segs_view(segs@) == segments_of(expansion@),
{
    let cs = chars_of(expansion);
    let n = cs.len();
    let mut segs: Vec<Segment> = Vec::new();
    let mut i: usize = 0;
    assert(cs@.subrange(0, n as int) =~= cs@);
    while i < n
        invariant
            n == cs@.len(),
            cs@ == expansion@,
            i <= n,
            segs_view(segs@) + segments_of(cs@.subrange(i as int, n as int)) == segments_of(cs@),
        decreases n - i,
    {
        let ghost sub = cs@.subrange(i as int, n as int);
        let ghost before = segs_view(segs@);
        if cs[i] != '<' {
            let mut t = String::new();
            push_char(&mut t, cs[i]);
            segs.push(Segment::Text(t));
            proof {
                assert(sub.drop_first() =~= cs@.subrange(i + 1, n as int));
                assert(segs_view(segs@) =~= before.push((false, seq![cs@[i as int]])));
                assert(segs_view(segs@) + segments_of(cs@.subrange(i + 1, n as int)) =~= before + segments_of(sub));
            }
            i = i + 1;
        } else {
            let mut j: usize = i + 1;
            while j < n && cs[j] != '>'
                invariant
                    n == cs@.len(),
                    i < j <= n,
                    forall|m: int| i < m < j ==> cs@[m] != '>',
                decreases n - j,
            {
                j = j + 1;
            }
            let ghost rest = sub.drop_first();
            proof {
                assert(rest =~= cs@.subrange(i + 1, n as int));
                lemma_close_index(rest, (j - i - 1) as int);
            }
            let mut name = String::new();
            let mut m: usize = i + 1;
            while m < j
                invariant
                    n == cs@.len(),
                    i < m <= j <= n,
                    name@ == cs@.subrange(i + 1, m as int),
                decreases j - m,
            {
                push_char(&mut name, cs[m]);
                m = m + 1;
                assert(name@ =~= cs@.subrange(i + 1, m as int));
            }
            if j < n {
                if j > i + 1 {
                    segs.push(Segment::Rule(name));
                    proof {
                        assert(rest.subrange(0, (j - i - 1) as int) =~= cs@.subrange(i + 1, j as int));
                        assert(rest.subrange((j - i) as int, rest.len() as int) =~= cs@.subrange(j + 1, n as int));
                        assert(segs_view(segs@) =~= before.push((true, cs@.subrange(i + 1, j as int))));
                        assert(segs_view(segs@) + segments_of(cs@.subrange(j + 1, n as int)) =~= before + segments_of(sub));
                    }
                } else {
                    let mut t = String::new();
                    push_char(&mut t, '<');
                    segs.push(Segment::Text(t));
                    proof {
                        assert(rest.subrange((j - i) as int, rest.len() as int) =~= cs@.subrange(j + 1, n as int));
                        assert(segs_view(segs@) =~= before.push((false, seq!['<'])));
                        assert(segs_view(segs@) + segments_of(cs@.subrange(j + 1, n as int)) =~= before + segments_of(sub));
                    }
                }
                i = j + 1;
            } else {
                let mut t = String::new();
                push_char(&mut t, '<');
                t.append(name.as_str());
                segs.push(Segment::Text(t));
                proof {
                    assert(t@ =~= seq!['<'] + rest);
                    assert(segs_view(segs@) =~= before.push((false, seq!['<'] + rest)));
                    assert(cs@.subrange(n as int, n as int) =~= Seq::<char>::empty());
                    assert(segs_view(segs@) + segments_of(cs@.subrange(n as int, n as int)) =~= before + segments_of(sub));
                }
                i = n;
            }
        }
    }
    proof {
        assert(cs@.subrange(n as int, n as int) =~= Seq::<char>::empty());
        assert(segs_view(segs@) =~= segments_of(cs@));
    }
    segs
}

/// The text of segments that hold no reference (`None` if one does).
pub open spec fn plain_text(segs: Seq<(bool, Seq<char>)>) -> Option<Seq<char>>
    decreases segs.len(),
{
    if segs.len() == 0 {
        Some(Seq::empty())
    } else if segs.last().0 {
        None
    } else {
        match plain_text(segs.drop_last()) {
            Some(t) => Some(t + segs.last().1),
            None => None,
        }
    }
}

/// Every rule's weights, where given, sum to at most `u32::MAX`.
pub open spec fn grammar_wf(g: Grammar) -> bool {
    forall|i: int| 0 <= i < g.rules@.len() ==> match (#[trigger] g.rules@[i]).1.weights {
        Some(w) => weight_sum(w@) <= u32::MAX,
        None => true,
    }
}

/// How choosing an expansion can fail.
pub open spec fn selection_error(rule: GrammarRule) -> Option<Seq<char>> {
    if rule.expansions@.len() == 0 {
        Some("Rule has no expansions"@)
    } else {
        match rule.weights {
            Some(w) => if w@.len() != rule.expansions@.len() {
                Some("Weights count doesn't match expansions count"@)
            } else {
                None
            },
            None => None,
        }
    }
}

/// The result holds the given text.
pub open spec fn ok_text(r: Result<String, String>, t: Seq<char>) -> bool {
    r matches Ok(s) && s@ == t
}

/// The result is the given error.
pub open spec fn err_text(r: Result<String, String>, t: Seq<char>) -> bool {
    r matches Err(e) && e@ == t
}

/// Remaining expansion levels before the depth limit; the recursion measure.
pub open spec fn levels_left(depth: int) -> int {
    if depth <= 11 { 11 - depth } else { 0 }
}

/// The rule's expansion `k` is one the selection may pick: any expansion
/// without weights; with weights, one of positive weight (the first when
/// all weights are zero).
pub open spec fn may_choose(rule: GrammarRule, k: int) -> bool {
    &&& 0 <= k < rule.expansions@.len()
    &&& match rule.weights {
        Some(w) => if weight_sum(w@) == 0 { k == 0 } else { w@[k] > 0 },
        None => true,
    }
}

/// The pieces joined end to end.
pub open spec fn concat(pieces: Seq<Seq<char>>) -> Seq<char>
    decreases pieces.len(),
{
    if pieces.len() == 0 {
        Seq::empty()
    } else {
        concat(pieces.drop_last()) + pieces.last()
    }
}

/// `out` is a successful expansion of rule (or variable) `name` at `depth`:
/// within the depth limit, a context variable of that name gives its value;
/// otherwise a rule of that name, with an expansion the selection may pick,
/// derives `out` one level deeper.
pub open spec fn rule_derives(g: Grammar, ctx: GrammarContext, name: Seq<char>, depth: int, out: Seq<char>) -> bool
    decreases levels_left(depth), 2int,
{
    if depth > 10 {
        false
    } else {
        match entry_of(vars_view(ctx.variables@), name) {
            Some(v) => out == v@,
            None => match entry_of(vars_view(g.rules@), name) {
                None => false,
                Some(rule) => selection_error(rule) is None && exists|k: int| #[trigger] may_choose(rule, k) && derives(
                    g,
                    ctx,
                    rule.expansions@[k]@,
                    depth + 1,
                    out,
                ),
            },
        }
    }
}

/// Each piece is what its segment gives: literal text itself, a reference
/// one of its successful expansions.
pub open spec fn pieces_fit(
    g: Grammar,
    ctx: GrammarContext,
    segs: Seq<(bool, Seq<char>)>,
    depth: int,
    pieces: Seq<Seq<char>>,
) -> bool
    decreases levels_left(depth), 3int,
{
    &&& pieces.len() == segs.len()
    &&& forall|j: int| 0 <= j < segs.len() ==> if segs[j].0 {
        rule_derives(g, ctx, segs[j].1, depth, #[trigger] pieces[j])
    } else {
        pieces[j] == segs[j].1
    }
}

/// `out` is a successful expansion of the text `text` at `depth`: its
/// segments, each replaced by what it gives, joined in order.
pub open spec fn derives(g: Grammar, ctx: GrammarContext, text: Seq<char>, depth: int, out: Seq<char>) -> bool
    decreases levels_left(depth), 4int,
{
    exists|pieces: Seq<Seq<char>>| pieces_fit(g, ctx, segments_of(text), depth, pieces) && #[trigger] concat(pieces) == out
}

/// The text of segments whose references all name context variables (`None`
/// if one does not).
pub open spec fn var_text(ctx: GrammarContext, segs: Seq<(bool, Seq<char>)>) -> Option<Seq<char>>
    decreases segs.len(),
{
    if segs.len() == 0 {
        Some(Seq::empty())
    } else {
        let piece = if segs.last().0 {
            match entry_of(vars_view(ctx.variables@), segs.last().1) {
                Some(v) => Some(v@),
                None => None,
            }
        } else {
            Some(segs.last().1)
        };
        match (var_text(ctx, segs.drop_last()), piece) {
            (Some(t), Some(v)) => Some(t + v),
            _ => None,
        }
    }
}

impl Grammar {
    /// An empty grammar.
    pub fn new() -> (g: Self)
        ensures
            g.rules@.len() == 0,
    {
        Grammar { rules: Vec::new() }
    }

    /// Choose an expansion: uniformly, or by weight where weights are given
    /// (all-zero weights choose the first).
    pub fn select_expansion(rule: &GrammarRule, rng: &mut ChaCha8Rng) -> (r: Result<usize, String>)
        requires
            rule.weights matches Some(w) ==> weight_sum(w@) <= u32::MAX,
        ensures
            match selection_error(*rule) {
                Some(e) => r matches Err(m) && m@ == e,
                None => r matches Ok(i) && i < rule.expansions@.len() && match rule.weights {
                    Some(w) => if weight_sum(w@) == 0 { i == 0 } else { w@[i as int] > 0 },
                    None => true,
                },
            },
    {
        let n = rule.expansions.len();
        if n == 0 {
            return Err(String::from_str("Rule has no expansions"));
        }
        match &rule.weights {
            Some(w) => {
                if w.len() != n {
                    return Err(String::from_str("Weights count doesn't match expansions count"));
                }
                let total = total_weight(w);
                if total == 0 {
                    return Ok(0);
                }
                let roll = gen_range_u32(rng, 0, total);
                proof {
                    law_roll_lands(w@, roll as int);
                }
                match pick_by_roll(w, roll) {
                    Some(i) => Ok(i),
                    None => Ok(n - 1),
                }
            },
            None => Ok(gen_range_usize(rng, 0, n)),
        }
    }

    /// Expand a rule: a context variable of that name gives its value; else
    /// the rule's chosen expansion is expanded one level deeper. Past depth 10
    /// the expansion fails.
    pub fn expand_rule(&self, rule_name: &String, context: &GrammarContext, rng: &mut ChaCha8Rng, depth: usize) -> (r: Result<
        String,
        String,
    >)
        requires
            grammar_wf(*self),
        ensures
            depth > 10 ==> err_text(r, "Maximum recursion depth exceeded"@),
            r matches Ok(s) ==> rule_derives(*self, *context, rule_name@, depth as int, s@),
            depth <= 10 ==> match entry_of(vars_view(context.variables@), rule_name@) {
                Some(v) => ok_text(r, v@),
                None => match entry_of(vars_view(self.rules@), rule_name@) {
                    None => err_text(r, "Rule not found: "@ + rule_name@),
                    Some(rule) => match selection_error(rule) {
                        Some(e) => err_text(r, e),
                        None => {
                            &&& (forall|k: int| 0 <= k < rule.expansions@.len() ==> plain_text(
                                segments_of(#[trigger] rule.expansions@[k]@),
                            ) is Some) ==> exists|k: int| may_choose(rule, k) && ok_text(
                                r,
                                plain_text(segments_of(#[trigger] rule.expansions@[k]@))->0,
                            )
                            &&& (depth < 10 && forall|k: int| 0 <= k < rule.expansions@.len() ==> var_text(
                                *context,
                                segments_of(#[trigger] rule.expansions@[k]@),
                            ) is Some) ==> exists|k: int| may_choose(rule, k) && ok_text(
                                r,
                                var_text(*context, segments_of(#[trigger] rule.expansions@[k]@))->0,
                            )
                        },
                    },
                },
            },
        decreases levels_left(depth as int), 1int,
    {
        if depth > 10 {
            return Err(String::from_str("Maximum recursion depth exceeded"));
        }
        match entry_index(&context.variables, rule_name) {
            Some(i) => {
                return Ok(context.variables[i].1.clone());
            },
            None => {},
        }
        let ri = entry_index(&self.rules, rule_name);
        match ri {
            None => {
                let mut e = String::from_str("Rule not found: ");
                e.append(rule_name.as_str());
                Err(e)
            },
            Some(i) => {
                let rule = &self.rules[i].1;
                proof {
                    assert(grammar_wf(*self));
                    assert(match self.rules@[i as int].1.weights {
                        Some(w) => weight_sum(w@) <= u32::MAX,
                        None => true,
                    });
                }
                let k = Self::select_expansion(rule, rng);
                match k {
                    Err(e) => Err(e),
                    Ok(k) => {
                        let r = self.process_expansion(&rule.expansions[k], context, rng, depth + 1);
                        proof {
                            assert(may_choose(*rule, k as int));
                            if forall|m: int| 0 <= m < rule.expansions@.len() ==> plain_text(
                                segments_of(#[trigger] rule.expansions@[m]@),
                            ) is Some {
                                assert(plain_text(segments_of(rule.expansions@[k as int]@)) is Some);
                            }
                            if forall|m: int| 0 <= m < rule.expansions@.len() ==> var_text(
                                *context,
                                segments_of(#[trigger] rule.expansions@[m]@),
                            ) is Some {
                                assert(var_text(*context, segments_of(rule.expansions@[k as int]@)) is Some);
                            }
                        }
                        r
                    },
                }
            },
        }
    }

    /// Expand the text of an expansion: literal pieces are copied and each
    /// reference is expanded in turn; the first failure is returned.
    pub fn process_expansion(&self, expansion: &String, context: &GrammarContext, rng: &mut ChaCha8Rng, depth: usize) -> (r: Result<
        String,
        String,
    >)
        requires
            grammar_wf(*self),
        ensures
            plain_text(segments_of(expansion@)) matches Some(t) ==> ok_text(r, t),
            depth <= 10 ==> (var_text(*context, segments_of(expansion@)) matches Some(t) ==> ok_text(r, t)),
            r matches Ok(s) ==> derives(*self, *context, expansion@, depth as int, s@),
        decreases levels_left(depth as int), 2int,
    {
        let segs = parse_expansion(expansion);
        let mut out = String::new();
        let mut i: usize = 0;
        let ghost mut pieces: Seq<Seq<char>> = Seq::empty();
        proof {
            assert(segs_view(segs@).subrange(0, 0) =~= Seq::<(bool, Seq<char>)>::empty());
        }
        while i < segs.len()
            invariant
                grammar_wf(*self),
                i <= segs@.len(),
                segs_view(segs@) == segments_of(expansion@),
                plain_text(segments_of(expansion@)) is Some ==> plain_text(segs_view(segs@).subrange(0, i as int)) == Some(out@),
                depth <= 10 && var_text(*context, segments_of(expansion@)) is Some ==> var_text(
                    *context,
                    segs_view(segs@).subrange(0, i as int),
                ) == Some(out@),
                pieces_fit(*self, *context, segs_view(segs@).subrange(0, i as int), depth as int, pieces),
                concat(pieces) == out@,
            decreases segs@.len() - i,
        {
            proof {
                lemma_plain_prefix(segs_view(segs@), i as int);
                lemma_var_prefix(*context, segs_view(segs@), i as int);
                assert(segs_view(segs@).subrange(0, i + 1).drop_last() =~= segs_view(segs@).subrange(0, i as int));
            }
            let ghost before = out@;
            let ghost seg = segs_view(segs@)[i as int];
            let ghost mut piece: Seq<char> = Seq::empty();
            match &segs[i] {
                Segment::Text(t) => {
                    out.append(t.as_str());
                    proof {
                        piece = t@;
                    }
                },
                Segment::Rule(name) => {
                    let sub = self.expand_rule(name, context, rng, depth);
                    match sub {
                        Ok(s) => {
                            out.append(s.as_str());
                            proof {
                                piece = s@;
                            }
                        },
                        Err(e) => return Err(e),
                    }
                },
            }
            proof {
                assert(out@ =~= before + piece);
                assert(if seg.0 {
                    rule_derives(*self, *context, seg.1, depth as int, piece)
                } else {
                    piece == seg.1
                });
                let np = pieces.push(piece);
                assert(np.drop_last() =~= pieces);
                let pre = segs_view(segs@).subrange(0, i as int);
                let pre1 = segs_view(segs@).subrange(0, i + 1);
                assert forall|j: int| 0 <= j < pre1.len() implies (if pre1[j].0 {
                    rule_derives(*self, *context, pre1[j].1, depth as int, #[trigger] np[j])
                } else {
                    np[j] == pre1[j].1
                }) by {
                    if j < i {
                        assert(pre1[j] == pre[j]);
                        assert(np[j] == pieces[j]);
                    }
                }
                pieces = np;
            }
            i = i + 1;
        }
        proof {
            assert(segs_view(segs@).subrange(0, segs@.len() as int) =~= segs_view(segs@));
            assert(pieces_fit(*self, *context, segments_of(expansion@), depth as int, pieces));
        }
        Ok(out)
    }

    /// Expand the start rule.
    pub fn generate(&self, start_rule: &str, context: &GrammarContext, rng: &mut ChaCha8Rng) -> (r: Result<String, String>)
        requires
            grammar_wf(*self),
        ensures
            r matches Ok(s) ==> rule_derives(*self, *context, start_rule@, 0, s@),
            match entry_of(vars_view(context.variables@), start_rule@) {
                Some(v) => ok_text(r, v@),
                None => match entry_of(vars_view(self.rules@), start_rule@) {
                    None => err_text(r, "Rule not found: "@ + start_rule@),
                    Some(rule) => match selection_error(rule) {
                        Some(e) => err_text(r, e),
                        None => (forall|k: int| 0 <= k < rule.expansions@.len() ==> var_text(
                            *context,
                            segments_of(#[trigger] rule.expansions@[k]@),
                        ) is Some) ==> exists|k: int| may_choose(rule, k) && ok_text(
                            r,
                            var_text(*context, segments_of(#[trigger] rule.expansions@[k]@))->0,
                        ),
                    },
                },
            },
    {
        let name = start_rule.to_owned();
        self.expand_rule(&name, context, rng, 0)
    }
}

/// `<name>`, for a non-empty name without `>`, is one reference to `name`.
proof fn lemma_reference_segments(name: Seq<char>)
    requires
        name.len() > 0,
        forall|m: int| 0 <= m < name.len() ==> name[m] != '>',
    ensures
        segments_of(seq!['<'] + name + seq!['>']) == seq![(true, name)],
{
    let s = seq!['<'] + name + seq!['>'];
    let rest = s.drop_first();
    assert(rest =~= name + seq!['>']);
    lemma_close_index(rest, name.len() as int);
    assert(rest.subrange(0, name.len() as int) =~= name);
    assert(rest.subrange(name.len() as int + 1, rest.len() as int) =~= Seq::<char>::empty());
    assert(segments_of(s) =~= seq![(true, name)] + segments_of(Seq::<char>::empty()));
}

/// A rule whose every expansion is a reference to itself (and which no
/// context variable shadows) never expands successfully: the depth limit
/// stops it, so `generate` on it returns an error.
pub proof fn law_self_reference_fails(g: Grammar, ctx: GrammarContext, name: Seq<char>, depth: int, out: Seq<char>)
    requires
        name.len() > 0,
        forall|m: int| 0 <= m < name.len() ==> name[m] != '>',
        entry_of(vars_view(ctx.variables@), name) is None,
        entry_of(vars_view(g.rules@), name) matches Some(rule) && forall|k: int|
            0 <= k < rule.expansions@.len() ==> (#[trigger] rule.expansions@[k])@ == seq!['<'] + name + seq!['>'],
    ensures
        !rule_derives(g, ctx, name, depth, out),
    decreases levels_left(depth),
{
    if depth <= 10 && rule_derives(g, ctx, name, depth, out) {
        let rule = entry_of(vars_view(g.rules@), name)->0;
        let k = choose|k: int| #[trigger] may_choose(rule, k) && derives(g, ctx, rule.expansions@[k]@, depth + 1, out);
        assert(rule.expansions@[k]@ == seq!['<'] + name + seq!['>']);
        lemma_reference_segments(name);
        let pieces = choose|pieces: Seq<Seq<char>>| pieces_fit(g, ctx, segments_of(rule.expansions@[k]@), depth + 1, pieces)
            && #[trigger] concat(pieces) == out;
        assert(segments_of(rule.expansions@[k]@)[0] == (true, name));
        law_self_reference_fails(g, ctx, name, depth + 1, pieces[0]);
        assert(rule_derives(g, ctx, name, depth + 1, pieces[0]));
    }
}

/// When all references of the whole sequence name variables, the same holds
/// of every prefix, and a reference next in line names a variable.
proof fn lemma_var_prefix(ctx: GrammarContext, segs: Seq<(bool, Seq<char>)>, i: int)
    requires
        0 <= i < segs.len(),
    ensures
        var_text(ctx, segs) is Some ==> var_text(ctx, segs.subrange(0, i + 1)) is Some,
    decreases segs.len(),
{
    if var_text(ctx, segs) is Some {
        if i == segs.len() - 1 {
            assert(segs.subrange(0, i + 1) =~= segs);
        } else {
            lemma_var_prefix(ctx, segs.drop_last(), i);
            assert(segs.drop_last().subrange(0, i + 1) =~= segs.subrange(0, i + 1));
        }
    }
}

/// When the whole sequence is plain, so is every prefix, and the next
/// segment is literal text.
proof fn lemma_plain_prefix(segs: Seq<(bool, Seq<char>)>, i: int)
    requires
        0 <= i < segs.len(),
    ensures
        plain_text(segs) is Some ==> !segs[i].0 && plain_text(segs.subrange(0, i + 1)) is Some,
    decreases segs.len(),
{
    if plain_text(segs) is Some {
        if i == segs.len() - 1 {
            assert(segs.subrange(0, i + 1) =~= segs);
        } else {
            lemma_plain_prefix(segs.drop_last(), i);
            assert(segs.drop_last().subrange(0, i + 1) =~= segs.subrange(0, i + 1));
            assert(segs.drop_last()[i] == segs[i]);
        }
    }
}

} // verus!
