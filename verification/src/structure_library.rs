//! The library of hand-drawn structures: character patterns with a legend
//! saying what each character places.

use vstd::prelude::*;
use crate::text::{decimal, push_decimal_usize, push_char};

verus! {

/// How a structure is placed.
#[derive(Debug, Clone, Copy, PartialEq, Eq, Structural)]
pub enum StructureUsage {
    /// A complete point of interest: ruins, shrines, landmarks.
    Standalone,
    /// A settlement building that roads and paths attach to.
    Connectable,
}

/// What a pattern character places.
#[derive(Debug, Clone)]
pub enum LegendEntry {
    Wall { id: String },
    Floor { id: String },
    Door,
    Interactable { id: String },
    Npc { id: String, name: Option<String> },
    Structure { id: String },
    /// Leaves the terrain underneath unchanged.
    Ground,
    /// A path tile, replaced with the settlement's road material.
    Path,
}

/// An area to clear around a structure.
#[derive(Debug, Clone)]
pub struct ClearArea {
    pub shape: String,
    pub radius: Option<usize>,
    pub width: Option<usize>,
    pub height: Option<usize>,
    pub center_x: usize,
    pub center_y: usize,
}

/// Descriptive data about a structure.
#[derive(Debug, Clone)]
pub struct StructureMetadata {
    pub description: Option<String>,
    pub faction: Option<String>,
    pub npc_count: usize,
    pub npc_types: Vec<String>,
    pub tags: Vec<String>,
    /// The selection weight, kept as the bits of its `f32` value.
    pub weight_bits: u32,
    pub clear_area: Option<ClearArea>,
    pub entrance_side: Option<String>,
}

impl Default for StructureMetadata {
    /// No description, faction, NPCs or tags, a weight of 1, no clear area
    /// and no entrance side.
    fn default() -> (m: Self)
        ensures
            m.description is None,
            m.faction is None,
            m.npc_count == 0,
            m.npc_types@.len() == 0,
            m.tags@.len() == 0,
            m.weight_bits == 0x3f80_0000,
            m.clear_area is None,
            m.entrance_side is None,
    {
        StructureMetadata {
            description: None,
            faction: None,
            npc_count: 0,
            npc_types: Vec::new(),
            tags: Vec::new(),
            weight_bits: 0x3f80_0000,
            clear_area: None,
            entrance_side: None,
        }
    }
}

/// A structure as it is written down: an inline pattern, or the name of a
/// pattern file, and the legend.
pub struct StructureData {
    pub id: String,
    pub usage: StructureUsage,
    pub pattern_file: Option<String>,
    pub pattern: Option<Vec<String>>,
    pub legend: Vec<(char, LegendEntry)>,
    pub metadata: StructureMetadata,
}

/// A placeable structure with a rectangular pattern.
#[derive(Debug)]
pub struct Structure {
    pub id: String,
    pub usage: StructureUsage,
    pub width: usize,
    pub height: usize,
    /// Rows of characters, all `width` long.
    pub pattern: Vec<Vec<char>>,
    pub legend: Vec<(char, LegendEntry)>,
    pub metadata: StructureMetadata,
}

/// The rows as character sequences.
pub open spec fn rows_view(p: Seq<Vec<char>>) -> Seq<Seq<char>> {
    p.map_values(|r: Vec<char>| r@)
}

/// Each line's characters, as a row.
pub open spec fn lines_as_rows(lines: Seq<String>) -> Seq<Seq<char>> {
    lines.map_values(|l: String| l@)
}

/// The characters of a string.
pub fn chars_of(s: &String) -> (v: Vec<char>)
    ensures
        v@ == s@,
{
    let n = s.as_str().unicode_len();
    let mut v: Vec<char> = Vec::new();
    let mut i: usize = 0;
    while i < n
        invariant
            n == s@.len(),
            i <= n,
            v@ == s@.subrange(0, i as int),
        decreases n - i,
    {
        v.push(s.as_str().get_char(i));
        i = i + 1;
        assert(v@ =~= s@.subrange(0, i as int));
    }
    assert(s@.subrange(0, n as int) =~= s@);
    v
}

/// The rows of an inline pattern; an empty pattern is refused.
pub fn parse_inline_pattern(lines: Vec<String>) -> (r: Result<Vec<Vec<char>>, String>)
    ensures
        lines@.len() == 0 <==> r is Err,
        r matches Err(e) ==> e@ == "Inline pattern is empty"@,
        r matches Ok(p) ==> rows_view(p@) == lines_as_rows(lines@),
{
    if lines.len() == 0 {
        return Err(String::from_str("Inline pattern is empty"));
    }
    let mut rows: Vec<Vec<char>> = Vec::new();
    let mut i: usize = 0;
    while i < lines.len()
        invariant
            i <= lines@.len(),
            rows@.len() == i,
            rows_view(rows@) == lines_as_rows(lines@).subrange(0, i as int),
        decreases lines@.len() - i,
    {
        let row = chars_of(&lines[i]);
        let ghost before = rows@;
        rows.push(row);
        proof {
            assert(rows@[i as int]@ == lines@[i as int]@);
            assert forall|k: int| 0 <= k < i implies rows@[k] == before[k] by {}
            assert(rows_view(rows@) =~= lines_as_rows(lines@).subrange(0, i + 1));
        }
        i = i + 1;
    }
    assert(lines_as_rows(lines@).subrange(0, i as int) =~= lines_as_rows(lines@));
    Ok(rows)
}

/// The length of the longest row.
pub open spec fn widest(p: Seq<Seq<char>>) -> nat
    decreases p.len(),
{
    if p.len() == 0 {
        0
    } else {
        let w = widest(p.drop_last());
        if p.last().len() > w { p.last().len() } else { w }
    }
}

/// The row padded with spaces on the right to `width`.
pub open spec fn pad_row(r: Seq<char>, width: nat) -> Seq<char> {
    if r.len() >= width { r } else { r + Seq::new((width - r.len()) as nat, |i: int| ' ') }
}

/// The character at `(x, y)` is neither a space nor in the legend.
pub open spec fn unknown_char(p: Seq<Seq<char>>, legend: Seq<(char, LegendEntry)>, x: int, y: int) -> bool {
    &&& 0 <= y < p.len()
    &&& 0 <= x < p[y].len()
    &&& p[y][x] != ' '
    &&& forall|k: int| 0 <= k < legend.len() ==> (#[trigger] legend[k]).0 != p[y][x]
}

/// `(x, y)` comes before `(x2, y2)` reading row by row.
pub open spec fn reads_before(x2: int, y2: int, x: int, y: int) -> bool {
    y2 < y || (y2 == y && x2 < x)
}

/// The refusal of a pattern character missing from the legend.
pub open spec fn legend_error(id: Seq<char>, ch: char, x: nat, y: nat) -> Seq<char> {
    "Structure '"@ + id + "' pattern character '"@ + seq![ch] + "' at ("@ + decimal(x) + ", "@ + decimal(y)
        + ") not in legend"@
}

fn longest_row(p: &Vec<Vec<char>>) -> (w: usize)
    ensures
        w == widest(rows_view(p@)),
        forall|i: int| 0 <= i < p@.len() ==> p@[i]@.len() <= w,
{
    let mut w: usize = 0;
    let mut i: usize = 0;
    while i < p.len()
        invariant
            i <= p@.len(),
            w == widest(rows_view(p@).subrange(0, i as int)),
            forall|k: int| 0 <= k < i ==> p@[k]@.len() <= w,
        decreases p@.len() - i,
    {
        proof {
            assert(rows_view(p@).subrange(0, i + 1).drop_last() =~= rows_view(p@).subrange(0, i as int));
        }
        if p[i].len() > w {
            w = p[i].len();
        }
        i = i + 1;
    }
    assert(rows_view(p@).subrange(0, i as int) =~= rows_view(p@));
    w
}

fn in_legend(legend: &Vec<(char, LegendEntry)>, ch: char) -> (b: bool)
    ensures
        b == exists|k: int| 0 <= k < legend@.len() && (#[trigger] legend@[k]).0 == ch,
{
    let mut k: usize = 0;
    while k < legend.len()
        invariant
            k <= legend@.len(),
            forall|j: int| 0 <= j < k ==> (#[trigger] legend@[j]).0 != ch,
        decreases legend@.len() - k,
    {
        if legend[k].0 == ch {
            return true;
        }
        k = k + 1;
    }
    false
}

/// The rows padded to the widest.
pub open spec fn padded_rows(p: Seq<Seq<char>>) -> Seq<Seq<char>> {
    p.map_values(|r: Seq<char>| pad_row(r, widest(p)))
}

/// The refusal of an empty pattern.
pub open spec fn empty_error(id: Seq<char>) -> Seq<char> {
    "Structure '"@ + id + "' has empty pattern"@
}

/// `r` is what building a structure from the rows `p` gives: refused when
/// there are no rows, or at the first character (row by row) that is neither
/// a space nor in the legend; otherwise the rows padded with spaces to the
/// widest.
pub open spec fn pattern_outcome(
    id: Seq<char>,
    usage: StructureUsage,
    p: Seq<Seq<char>>,
    legend: Seq<(char, LegendEntry)>,
    metadata: StructureMetadata,
    r: Result<Structure, String>,
) -> bool {
    let q = padded_rows(p);
    if p.len() == 0 {
        r matches Err(e) && e@ == empty_error(id)
    } else if exists|x: int, y: int| unknown_char(q, legend, x, y) {
        exists|x: int, y: int|
            #![trigger unknown_char(q, legend, x, y)]
            unknown_char(q, legend, x, y) && (forall|x2: int, y2: int|
                reads_before(x2, y2, x, y) ==> !#[trigger] unknown_char(q, legend, x2, y2)) && (r matches Err(e)
                && e@ == legend_error(id, q[y][x], x as nat, y as nat))
    } else {
        r matches Ok(s) && s.id@ == id && s.usage == usage && s.width == widest(p) && s.height == p.len()
            && rows_view(s.pattern@) == q && s.legend@ == legend && s.metadata == metadata
    }
}

fn pad_to(row: &mut Vec<char>, width: usize)
    ensures
        final(row)@ == pad_row(old(row)@, width as nat),
{
    let ghost orig = row@;
    while row.len() < width
        invariant
            orig.len() <= row@.len() || orig.len() >= width,
            orig.len() >= width ==> row@ == orig,
            orig.len() < width ==> row@.len() <= width && row@ == orig + Seq::new((row@.len() - orig.len()) as nat, |i: int| ' '),
        decreases width - row@.len(),
    {
        row.push(' ');
        proof {
            assert(row@ =~= orig + Seq::new((row@.len() - orig.len()) as nat, |i: int| ' '));
        }
    }
    proof {
        if orig.len() < width {
            assert(row@ =~= pad_row(orig, width as nat));
        }
    }
}

fn legend_message(id: &String, ch: char, x: usize, y: usize) -> (e: String)
    ensures
        e@ == legend_error(id@, ch, x as nat, y as nat),
{
    let mut e = String::from_str("Structure '");
    e.append(id.as_str());
    e.append("' pattern character '");
    push_char(&mut e, ch);
    e.append("' at (");
    push_decimal_usize(&mut e, x);
    e.append(", ");
    push_decimal_usize(&mut e, y);
    e.append(") not in legend");
    proof {
        assert(e@ =~= legend_error(id@, ch, x as nat, y as nat));
    }
    e
}

impl Structure {
    /// Build a structure from pattern rows: pad them to the widest and check
    /// every character against the legend.
    pub fn from_pattern(
        id: String,
        usage: StructureUsage,
        pattern: Vec<Vec<char>>,
        legend: Vec<(char, LegendEntry)>,
        metadata: StructureMetadata,
    ) -> (r: Result<Structure, String>)
        ensures
            pattern_outcome(id@, usage, rows_view(pattern@), legend@, metadata, r),
    {
        let ghost p = rows_view(pattern@);
        let height = pattern.len();
        if height == 0 {
            let mut e = String::from_str("Structure '");
            e.append(id.as_str());
            e.append("' has empty pattern");
            return Err(e);
        }
        let width = longest_row(&pattern);
        let ghost q = padded_rows(p);
        let mut rows: Vec<Vec<char>> = Vec::new();
        let mut i: usize = 0;
        while i < height
            invariant
                height == p.len(),
                i <= height,
                width == widest(p),
                q == padded_rows(p),
                pattern@.len() == height,
                rows_view(pattern@) == p,
                rows@.len() == i,
                rows_view(rows@) == q.subrange(0, i as int),
            decreases height - i,
        {
            let mut row = pattern[i].clone();
            pad_to(&mut row, width);
            let ghost before = rows@;
            rows.push(row);
            proof {
                assert(rows@[i as int]@ == q[i as int]);
                assert forall|k: int| 0 <= k < i implies rows@[k] == before[k] by {}
                assert(rows_view(rows@) =~= q.subrange(0, i + 1));
            }
            i = i + 1;
        }
        proof {
            assert(rows_view(rows@) =~= q);
        }
        let mut y: usize = 0;
        while y < height
            invariant
                height == q.len(),
                height == p.len(),
                p == rows_view(pattern@),
                q == padded_rows(p),
                y <= height,
                width == widest(p),
                rows_view(rows@) == q,
                rows@.len() == height,
                forall|y2: int| 0 <= y2 < height ==> (#[trigger] q[y2]).len() == width,
                forall|x2: int, y2: int| y2 < y ==> !#[trigger] unknown_char(q, legend@, x2, y2),
            decreases height - y,
        {
            let mut x: usize = 0;
            while x < width
                invariant
                    height == q.len(),
                    height == p.len(),
                    p == rows_view(pattern@),
                    q == padded_rows(p),
                    y < height,
                    x <= width,
                    rows_view(rows@) == q,
                    rows@.len() == height,
                    q[y as int].len() == width,
                    forall|x2: int, y2: int| reads_before(x2, y2, x as int, y as int) ==> !#[trigger] unknown_char(q, legend@, x2, y2),
                decreases width - x,
            {
                assert(rows@[y as int]@ == q[y as int]);
                let ch = rows[y][x];
                if ch != ' ' && !in_legend(&legend, ch) {
                    let e = legend_message(&id, ch, x, y);
                    proof {
                        assert(q[y as int][x as int] == ch);
                        assert(unknown_char(q, legend@, x as int, y as int));
                        let r: Result<Structure, String> = Err(e);
                        assert(unknown_char(q, legend@, x as int, y as int) && (forall|x2: int, y2: int|
                            reads_before(x2, y2, x as int, y as int) ==> !#[trigger] unknown_char(q, legend@, x2, y2))
                            && (r matches Err(e2) && e2@ == legend_error(id@, q[y as int][x as int], x as nat, y as nat)));
                    }
                    return Err(e);
                }
                proof {
                    assert(!unknown_char(q, legend@, x as int, y as int));
                }
                x = x + 1;
            }
            y = y + 1;
        }
        proof {
            assert forall|x2: int, y2: int| !unknown_char(q, legend@, x2, y2) by {
                if 0 <= y2 < q.len() {
                    assert(q[y2].len() == width);
                }
            }
        }
        Ok(Structure { id, usage, width, height, pattern: rows, legend, metadata })
    }
}

/// The rows a structure is built from: the loaded pattern file when one is
/// named, else the inline pattern, else a refusal.
pub open spec fn source_rows(data: StructureData, loaded: Option<Result<Vec<Vec<char>>, String>>) -> Result<Seq<Seq<char>>, Seq<char>> {
    if data.pattern_file is Some {
        match loaded {
            Some(Ok(p)) => Ok(rows_view(p@)),
            Some(Err(e)) => Err(e@),
            None => Err(Seq::empty()),
        }
    } else {
        match data.pattern {
            Some(lines) => if lines@.len() == 0 {
                Err("Inline pattern is empty"@)
            } else {
                Ok(lines_as_rows(lines@))
            },
            None => Err("Structure '"@ + data.id@ + "' must specify pattern_file or pattern"@),
        }
    }
}

impl Structure {
    /// Build a structure from its written form; `loaded` is the outcome of
    /// reading the pattern file when the data names one.
    pub fn from_data(data: StructureData, loaded: Option<Result<Vec<Vec<char>>, String>>) -> (r: Result<Structure, String>)
        requires
            data.pattern_file is Some ==> loaded is Some,
        ensures
            match source_rows(data, loaded) {
                Err(e) => r matches Err(e2) && e2@ == e,
                Ok(p) => pattern_outcome(data.id@, data.usage, p, data.legend@, data.metadata, r),
            },
    {
        let ghost d = data;
        let ghost l = loaded;
        let StructureData { id, usage, pattern_file, pattern, legend, metadata } = data;
        let rows = if pattern_file.is_some() {
            match loaded {
                Some(Ok(p)) => p,
                Some(Err(e)) => {
                    return Err(e);
                },
                None => {
                    return Err(String::new());
                },
            }
        } else {
            match pattern {
                Some(lines) => match parse_inline_pattern(lines) {
                    Ok(p) => p,
                    Err(e) => {
                        return Err(e);
                    },
                },
                None => {
                    let mut e = String::from_str("Structure '");
                    e.append(id.as_str());
                    e.append("' must specify pattern_file or pattern");
                    return Err(e);
                },
            }
        };
        Structure::from_pattern(id, usage, rows, legend, metadata)
    }
}

/// The structures by id, each id at most once.
pub struct StructureLibrary {
    pub structures: Vec<Structure>,
}

/// No two structures share an id.
pub open spec fn distinct_ids(ss: Seq<Structure>) -> bool {
    forall|a: int, b: int| 0 <= a < b < ss.len() ==> (#[trigger] ss[a]).id@ != (#[trigger] ss[b]).id@
}

/// Position of the structure with the given id.
pub open spec fn position_of(ss: Seq<Structure>, id: Seq<char>) -> Option<int> {
    if exists|i: int| 0 <= i < ss.len() && (#[trigger] ss[i]).id@ == id {
        Some(choose|i: int| 0 <= i < ss.len() && (#[trigger] ss[i]).id@ == id)
    } else {
        None
    }
}

/// The structures after adding `s`: it replaces the structure with its id in
/// place, or goes last.
pub open spec fn inserted(ss: Seq<Structure>, s: Structure) -> Seq<Structure> {
    match position_of(ss, s.id@) {
        Some(i) => ss.update(i, s),
        None => ss.push(s),
    }
}

/// The structures, in order, that satisfy `keep`.
pub open spec fn kept(ss: Seq<Structure>, keep: spec_fn(Structure) -> bool) -> Seq<Structure>
    decreases ss.len(),
{
    if ss.len() == 0 {
        ss
    } else {
        let rest = kept(ss.drop_last(), keep);
        if keep(ss.last()) { rest.push(ss.last()) } else { rest }
    }
}

/// The structure's tags include `tag`.
pub open spec fn has_tag(s: Structure, tag: Seq<char>) -> bool {
    exists|j: int| 0 <= j < s.metadata.tags@.len() && (#[trigger] s.metadata.tags@[j])@ == tag
}

/// The structures the references point to.
pub open spec fn derefs(v: Seq<&Structure>) -> Seq<Structure> {
    v.map_values(|r: &Structure| *r)
}

impl StructureLibrary {
    pub open spec fn wf(&self) -> bool {
        distinct_ids(self.structures@)
    }

    /// An empty library.
    pub fn new() -> (lib: Self)
        ensures
            lib.wf(),
            lib.structures@.len() == 0,
    {
        StructureLibrary { structures: Vec::new() }
    }

    /// Add a structure, replacing any with the same id.
    pub fn insert(&mut self, s: Structure)
        requires
            old(self).wf(),
        ensures
            final(self).wf(),
            final(self).structures@ == inserted(old(self).structures@, s),
    {
        let ghost ss = self.structures@;
        let mut i: usize = 0;
        while i < self.structures.len()
            invariant
                self.structures@ == ss,
                ss == old(self).structures@,
                distinct_ids(ss),
                i <= ss.len(),
                forall|k: int| 0 <= k < i ==> (#[trigger] ss[k]).id@ != s.id@,
            decreases ss.len() - i,
        {
            if self.structures[i].id == s.id {
                proof {
                    assert(ss[i as int].id@ == s.id@);
                    let j = position_of(ss, s.id@)->0;
                    assert(0 <= j < ss.len() && ss[j].id@ == s.id@);
                    if j != i {
                        if j < i {
                            assert(ss[j].id@ != ss[i as int].id@);
                        } else {
                            assert(ss[i as int].id@ != ss[j].id@);
                        }
                    }
                }
                self.structures.set(i, s);
                proof {
                    assert forall|a: int, b: int| 0 <= a < b < self.structures@.len() implies (#[trigger] self.structures@[a]).id@
                        != (#[trigger] self.structures@[b]).id@ by {
                        if a != i && b != i {
                            assert(self.structures@[a] == ss[a]);
                            assert(self.structures@[b] == ss[b]);
                        } else if a == i {
                            assert(self.structures@[b] == ss[b]);
                            assert(ss[a].id@ != ss[b].id@);
                        } else {
                            assert(self.structures@[a] == ss[a]);
                            assert(ss[a].id@ != ss[b].id@);
                        }
                    }
                }
                return;
            }
            i = i + 1;
        }
        proof {
            assert(!(exists|k: int| 0 <= k < ss.len() && (#[trigger] ss[k]).id@ == s.id@));
        }
        self.structures.push(s);
        proof {
            assert forall|a: int, b: int| 0 <= a < b < self.structures@.len() implies (#[trigger] self.structures@[a]).id@
                != (#[trigger] self.structures@[b]).id@ by {
                assert(self.structures@[a] == ss[a]);
                if b < ss.len() {
                    assert(self.structures@[b] == ss[b]);
                }
            }
        }
    }

    /// The structure with the given id.
    pub fn get(&self, id: &str) -> (r: Option<&Structure>)
        requires
            self.wf(),
        ensures
            match position_of(self.structures@, id@) {
                Some(i) => r == Some(&self.structures@[i]),
                None => r is None,
            },
    {
        let key = String::from_str(id);
        let mut i: usize = 0;
        while i < self.structures.len()
            invariant
                key@ == id@,
                self.wf(),
                i <= self.structures@.len(),
                forall|k: int| 0 <= k < i ==> (#[trigger] self.structures@[k]).id@ != id@,
            decreases self.structures@.len() - i,
        {
            if self.structures[i].id == key {
                proof {
                    let j = position_of(self.structures@, id@)->0;
                    if j != i {
                        if j < i {
                            assert(self.structures@[j].id@ != self.structures@[i as int].id@);
                        } else {
                            assert(self.structures@[i as int].id@ != self.structures@[j].id@);
                        }
                    }
                }
                return Some(&self.structures[i]);
            }
            i = i + 1;
        }
        None
    }

    /// The structures placed the given way, in library order.
    pub fn by_usage(&self, usage: StructureUsage) -> (v: Vec<&Structure>)
        ensures
            derefs(v@) == kept(self.structures@, |s: Structure| s.usage == usage),
    {
        let ghost keep = |s: Structure| s.usage == usage;
        let mut v: Vec<&Structure> = Vec::new();
        let mut i: usize = 0;
        while i < self.structures.len()
            invariant
                i <= self.structures@.len(),
                keep == (|s: Structure| s.usage == usage),
                derefs(v@) == kept(self.structures@.subrange(0, i as int), keep),
            decreases self.structures@.len() - i,
        {
            proof {
                let pre = self.structures@.subrange(0, i + 1);
                assert(pre.drop_last() =~= self.structures@.subrange(0, i as int));
                assert(pre.last() == self.structures@[i as int]);
            }
            if self.structures[i].usage == usage {
                v.push(&self.structures[i]);
                proof {
                    assert(derefs(v@) =~= kept(self.structures@.subrange(0, i as int), keep).push(self.structures@[i as int]));
                }
            }
            i = i + 1;
        }
        assert(self.structures@.subrange(0, i as int) =~= self.structures@);
        v
    }

    /// The structures of a faction, in library order.
    pub fn by_faction(&self, faction: &str) -> (v: Vec<&Structure>)
        ensures
            derefs(v@) == kept(self.structures@, |s: Structure| s.metadata.faction matches Some(f) && f@ == faction@),
    {
        let ghost keep = |s: Structure| s.metadata.faction matches Some(f) && f@ == faction@;
        let key = String::from_str(faction);
        let mut v: Vec<&Structure> = Vec::new();
        let mut i: usize = 0;
        while i < self.structures.len()
            invariant
                key@ == faction@,
                i <= self.structures@.len(),
                keep == (|s: Structure| s.metadata.faction matches Some(f) && f@ == faction@),
                derefs(v@) == kept(self.structures@.subrange(0, i as int), keep),
            decreases self.structures@.len() - i,
        {
            proof {
                let pre = self.structures@.subrange(0, i + 1);
                assert(pre.drop_last() =~= self.structures@.subrange(0, i as int));
                assert(pre.last() == self.structures@[i as int]);
            }
            let matches_faction = match &self.structures[i].metadata.faction {
                Some(f) => *f == key,
                None => false,
            };
            if matches_faction {
                v.push(&self.structures[i]);
                proof {
                    assert(derefs(v@) =~= kept(self.structures@.subrange(0, i as int), keep).push(self.structures@[i as int]));
                }
            }
            i = i + 1;
        }
        assert(self.structures@.subrange(0, i as int) =~= self.structures@);
        v
    }

    /// The structures carrying a tag, in library order.
    pub fn by_tag(&self, tag: &str) -> (v: Vec<&Structure>)
        ensures
            derefs(v@) == kept(self.structures@, |s: Structure| has_tag(s, tag@)),
    {
        let ghost keep = |s: Structure| has_tag(s, tag@);
        let key = String::from_str(tag);
        let mut v: Vec<&Structure> = Vec::new();
        let mut i: usize = 0;
        while i < self.structures.len()
            invariant
                key@ == tag@,
                i <= self.structures@.len(),
                keep == (|s: Structure| has_tag(s, tag@)),
                derefs(v@) == kept(self.structures@.subrange(0, i as int), keep),
            decreases self.structures@.len() - i,
        {
            proof {
                let pre = self.structures@.subrange(0, i + 1);
                assert(pre.drop_last() =~= self.structures@.subrange(0, i as int));
                assert(pre.last() == self.structures@[i as int]);
            }
            if crate::item::contains_str(&self.structures[i].metadata.tags, &key) {
                v.push(&self.structures[i]);
                proof {
                    assert(derefs(v@) =~= kept(self.structures@.subrange(0, i as int), keep).push(self.structures@[i as int]));
                }
            }
            i = i + 1;
        }
        assert(self.structures@.subrange(0, i as int) =~= self.structures@);
        v
    }

    /// How many structures the library holds.
    pub fn len(&self) -> (n: usize)
        ensures
            n == self.structures@.len(),
    {
        self.structures.len()
    }
}

/// A structure added to the library is what a lookup of its id gives back,
/// and lookups of other ids are unchanged.
pub proof fn law_insert_then_get(ss: Seq<Structure>, s: Structure, other: Seq<char>)
    requires
        distinct_ids(ss),
        distinct_ids(inserted(ss, s)),
    ensures
        position_of(inserted(ss, s), s.id@) matches Some(i) && inserted(ss, s)[i] == s,
        other != s.id@ ==> match position_of(ss, other) {
            Some(i) => position_of(inserted(ss, s), other) matches Some(j) && inserted(ss, s)[j] == ss[i],
            None => position_of(inserted(ss, s), other) is None,
        },
{
    let t = inserted(ss, s);
    match position_of(ss, s.id@) {
        Some(i) => {
            assert(t[i].id@ == s.id@);
        },
        None => {
            assert(t[ss.len() as int].id@ == s.id@);
        },
    }
    let j = position_of(t, s.id@)->0;
    assert(t[j].id@ == s.id@);
    match position_of(ss, s.id@) {
        Some(i) => {
            if j != i {
                if j < i { assert(t[j].id@ != t[i].id@); } else { assert(t[i].id@ != t[j].id@); }
            }
        },
        None => {
            let n = ss.len() as int;
            if j != n {
                assert(t[j].id@ != t[n].id@);
            }
        },
    }
    if other != s.id@ {
        match position_of(ss, other) {
            Some(i) => {
                assert(t[i] == ss[i]);
                assert(t[i].id@ == other);
                let k = position_of(t, other)->0;
                if k != i {
                    if k < i { assert(t[k].id@ != t[i].id@); } else { assert(t[i].id@ != t[k].id@); }
                }
            },
            None => {
                assert forall|k: int| 0 <= k < t.len() implies (#[trigger] t[k]).id@ != other by {
                    if k < ss.len() {
                        if position_of(ss, s.id@) matches Some(i) && k == i {
                        } else {
                            assert(t[k] == ss[k]);
                        }
                    }
                }
            },
        }
    }
}

} // verus!
