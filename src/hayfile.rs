//! Reading a hayfile line by line: commands, assignments, includes and rule headers.

use vstd::prelude::*;
use crate::chars::{from_chars, is_name_char, is_var_char, is_white, is_whitespace, to_chars};
use crate::expand::{expand, expand_chars, name_end};
use crate::pipeline::{define_all, Launcher};
use crate::recipe::{Recipe, Rule, strings};
use crate::scan::{balanced_parts, find_from, run_end, slice_chars, split_balanced, views};
use crate::stages::copy_chars;
use crate::vars::VarMap;
use crate::words::{first_non_white, last_non_white_end, trim, trim_chars};

verus! {

/// What can go wrong while reading a hayfile.
#[derive(Debug)]
pub enum HayError {
    /// A command line came before any rule; `column` is where its text starts.
    StrayShell { column: usize },
    /// A line is neither blank, a command, an assignment, an include nor a rule header.
    ParseError,
    /// An assignment names no variable on its left side.
    AssignmentMalformed,
    /// Expanding the line took more rewrites than allowed.
    ExpansionRunaway,
}

/// A line of a hayfile, parsed: a rule, or the files it includes.
#[derive(Debug)]
pub enum MakeLine {
    Rule(Rule),
    Import(Import),
}

/// The files that an `include` line names.
#[derive(Debug)]
pub struct Import {
    pub files: Vec<String>,
}

/// The pieces of `t` between the occurrences of `sep`, empty ones included, from the piece
/// that starts at `start`, the scan being at `i`.
pub open spec fn cut_from(t: Seq<char>, sep: char, start: int, i: int) -> Seq<Seq<char>>
    decreases t.len() - i,
{
    if i < 0 || start < 0 || start > i || i >= t.len() {
        seq![t.subrange(start, t.len() as int)]
    } else if t[i] == sep {
        seq![t.subrange(start, i)] + cut_from(t, sep, i + 1, i + 1)
    } else {
        cut_from(t, sep, start, i + 1)
    }
}

pub open spec fn cut(t: Seq<char>, sep: char) -> Seq<Seq<char>> {
    cut_from(t, sep, 0, 0)
}

/// The runs of non-white characters of `s` from `i` on.
pub open spec fn fields_from(s: Seq<char>, i: int) -> Seq<Seq<char>>
    decreases s.len() - i,
{
    if i < 0 || i >= s.len() {
        seq![]
    } else if is_white(s[i]) {
        fields_from(s, i + 1)
    } else {
        let e = run_end(s, i);
        if e <= i || e > s.len() {
            seq![]
        } else {
            seq![s.subrange(i, e)] + fields_from(s, e)
        }
    }
}

/// The white-space separated words of `s`.
pub open spec fn fields(s: Seq<char>) -> Seq<Seq<char>> {
    fields_from(s, 0)
}

/// The runs of name characters of `s` from `i` on.
pub open spec fn names_from(s: Seq<char>, i: int) -> Seq<Seq<char>>
    decreases s.len() - i,
{
    if i < 0 || i >= s.len() {
        seq![]
    } else if !is_name_char(s[i]) {
        names_from(s, i + 1)
    } else {
        let e = name_end(s, i);
        if e <= i || e > s.len() {
            seq![]
        } else {
            seq![s.subrange(i, e)] + names_from(s, e)
        }
    }
}

/// The names in each of `dests`, in order.
pub open spec fn all_names(dests: Seq<Seq<char>>) -> Seq<Seq<char>>
    decreases dests.len(),
{
    if dests.len() == 0 {
        seq![]
    } else {
        all_names(dests.drop_last()) + names_from(dests.last(), 0)
    }
}

/// Whether `c` occurs in `s`.
pub open spec fn has_char(s: Seq<char>, c: char) -> bool {
    exists|k: int| 0 <= k < s.len() && s[k] == c
}

/// The groups of a header's right side: the fields of each part between `|`; `None` when
/// a part has none.
pub open spec fn groups_of(parts: Seq<Seq<char>>) -> Option<Seq<Seq<Seq<char>>>>
    decreases parts.len(),
{
    if parts.len() == 0 {
        Some(seq![])
    } else {
        match groups_of(parts.drop_last()) {
            Some(g) => if fields(parts.last()).len() > 0 { Some(g.push(fields(parts.last()))) } else { None },
            None => None,
        }
    }
}

/// A rule header `outputs : group | group ...`: at least one output before the first `:`,
/// no `|` there and no second `:`, and, unless only white space follows the `:`, groups of
/// at least one input each.
pub open spec fn header(l: Seq<char>) -> Option<(Seq<Seq<char>>, Seq<Seq<Seq<char>>>)> {
    let c = find_from(l, 0, ':');
    if c >= l.len() {
        None
    } else {
        let left = l.subrange(0, c);
        let right = l.subrange(c + 1, l.len() as int);
        let outs = fields(left);
        if outs.len() == 0 || has_char(left, '|') || has_char(right, ':') {
            None
        } else if fields(right).len() == 0 {
            Some((outs, seq![]))
        } else {
            match groups_of(cut(right, '|')) {
                Some(g) => Some((outs, g)),
                None => None,
            }
        }
    }
}

/// Whether `l` starts with the word `include` and white space after it.
pub open spec fn is_include(l: Seq<char>) -> bool {
    l.len() > 7 && l.subrange(0, 7) == "include"@ && is_white(l[7])
}

/// The files an `include` line names: its parts between spaces outside single quotes, the
/// first (the word `include`) left out.
pub open spec fn include_files(l: Seq<char>) -> Seq<Seq<char>> {
    let ps = balanced_parts(l, ' ', '\'').map_values(|p: (int, Seq<char>)| p.1);
    if ps.len() > 0 { ps.drop_first() } else { ps }
}

/// How a hayfile line, comments stripped, reads: blank, a command (it is indented), an
/// assignment (its body holds `=`), or something to expand.
pub enum LineKind {
    Blank,
    Command,
    Assignment,
    Other,
}

/// The body of a line: the line trimmed, without a leading `+`.
pub open spec fn body_of(source: Seq<char>) -> Seq<char> {
    let t = trim(source);
    if t.len() > 0 && t[0] == '+' { t.drop_first() } else { t }
}

/// Whether the trimmed line starts with `+`, which asks for debug output.
pub open spec fn debug_of(source: Seq<char>) -> bool {
    let t = trim(source);
    t.len() > 0 && t[0] == '+'
}

pub open spec fn kind_of(source: Seq<char>) -> LineKind {
    if trim(source).len() == 0 {
        LineKind::Blank
    } else if is_white(source[0]) {
        LineKind::Command
    } else if has_char(body_of(source), '=') {
        LineKind::Assignment
    } else {
        LineKind::Other
    }
}

/// The variables after the assignment `line`: every name on the left of the last `=`
/// bound to the trimmed text after it.
pub open spec fn assigned(vars: Map<Seq<char>, Seq<char>>, line: Seq<char>) -> Map<Seq<char>, Seq<char>> {
    let segs = cut(line, '=');
    define_all(vars, all_names(segs.drop_last()), trim(segs.last()))
}

/// The recipes and variables read so far from a hayfile.
#[derive(Debug)]
pub struct Hayfile {
    pub recipes: Vec<Recipe>,
    pub vars: VarMap,
}

/// The words of `s` separated by white space.
pub fn split_fields(s: &[char]) -> (r: Vec<Vec<char>>)
    ensures
        views(r@) == fields(s@),
{
    let mut out: Vec<Vec<char>> = Vec::new();
    let mut i: usize = 0;
    while i < s.len()
        invariant
            i <= s@.len(),
            views(out@) + fields_from(s@, i as int) == fields(s@),
        decreases s@.len() - i,
    {
        if is_whitespace(s[i]) {
            i += 1;
        } else {
            let mut e = i;
            while e < s.len() && !is_whitespace(s[e])
                invariant
                    i <= e <= s@.len(),
                    run_end(s@, i as int) == run_end(s@, e as int),
                decreases s@.len() - e,
            {
                e += 1;
            }
            proof {
                crate::scan::lemma_run_end(s@, i as int);
            }
            let ghost before = views(out@);
            let ghost tail = fields_from(s@, e as int);
            let w = slice_chars(s, i, e);
            out.push(w);
            assert(views(out@) =~= before.push(w@));
            assert(views(out@) + tail =~= before + (seq![w@] + tail));
            i = e;
        }
    }
    assert(views(out@) =~= views(out@) + fields_from(s@, i as int));
    out
}

fn split_names(s: &[char]) -> (r: Vec<Vec<char>>)
    ensures
        views(r@) == names_from(s@, 0),
{
    let mut out: Vec<Vec<char>> = Vec::new();
    let mut i: usize = 0;
    while i < s.len()
        invariant
            i <= s@.len(),
            views(out@) + names_from(s@, i as int) == names_from(s@, 0),
        decreases s@.len() - i,
    {
        if !is_var_char(s[i]) {
            i += 1;
        } else {
            let mut e = i;
            while e < s.len() && is_var_char(s[e])
                invariant
                    i <= e <= s@.len(),
                    name_end(s@, i as int) == name_end(s@, e as int),
                    forall|k: int| i <= k < e ==> is_name_char(#[trigger] s@[k]),
                decreases s@.len() - e,
            {
                e += 1;
            }
            let ghost before = views(out@);
            let ghost tail = names_from(s@, e as int);
            let w = slice_chars(s, i, e);
            out.push(w);
            assert(views(out@) =~= before.push(w@));
            assert(views(out@) + tail =~= before + (seq![w@] + tail));
            i = e;
        }
    }
    assert(views(out@) =~= views(out@) + names_from(s@, i as int));
    out
}

/// Cuts `t` at every `sep`, keeping empty pieces.
pub fn cut_at(t: &[char], sep: char) -> (r: Vec<Vec<char>>)
    ensures
        views(r@) == cut(t@, sep),
{
    let mut out: Vec<Vec<char>> = Vec::new();
    let mut start: usize = 0;
    let mut i: usize = 0;
    while i < t.len()
        invariant
            start <= i <= t@.len(),
            views(out@) + cut_from(t@, sep, start as int, i as int) == cut(t@, sep),
        decreases t@.len() - i,
    {
        if t[i] == sep {
            let ghost before = views(out@);
            let w = slice_chars(t, start, i);
            out.push(w);
            assert(views(out@) + cut_from(t@, sep, i + 1, i + 1) =~= before + (seq![w@] + cut_from(t@, sep, i + 1, i + 1)));
            start = i + 1;
        }
        i += 1;
    }
    let ghost before = views(out@);
    let w = slice_chars(t, start, t.len());
    out.push(w);
    assert(views(out@) =~= before + cut_from(t@, sep, start as int, i as int));
    out
}

fn strings_of(ws: &Vec<Vec<char>>) -> (r: Vec<String>)
    ensures
        strings(r@) == views(ws@),
{
    let mut out: Vec<String> = Vec::new();
    let mut k: usize = 0;
    while k < ws.len()
        invariant
            k <= ws@.len(),
            strings(out@) == views(ws@).take(k as int),
        decreases ws@.len() - k,
    {
        let ghost before = strings(out@);
        out.push(from_chars(&ws[k]));
        assert(strings(out@) =~= before.push(ws@[k as int]@));
        assert(strings(out@) =~= views(ws@).take(k + 1));
        k += 1;
    }
    assert(views(ws@).take(k as int) =~= views(ws@));
    out
}

fn find_char_in(s: &[char], c: char) -> (r: usize)
    ensures
        r as int == find_from(s@, 0, c),
        r <= s@.len(),
        r < s@.len() ==> s@[r as int] == c,
        forall|k: int| 0 <= k < r ==> s@[k] != c,
{
    let mut i: usize = 0;
    while i < s.len() && s[i] != c
        invariant
            i <= s@.len(),
            find_from(s@, 0, c) == find_from(s@, i as int, c),
            forall|k: int| 0 <= k < i ==> s@[k] != c,
        decreases s@.len() - i,
    {
        i += 1;
    }
    i
}

/// Parses a rule header.
pub fn parse_header(l: &[char]) -> (r: Option<Rule>)
    ensures
        r.is_some() == header(l@).is_some(),
        r.is_some() ==> r.unwrap().outputs_view() == header(l@).unwrap().0
            && r.unwrap().steps_view() == header(l@).unwrap().1,
{
    let c = find_char_in(l, ':');
    if c >= l.len() {
        return None;
    }
    let left = slice_chars(l, 0, c);
    let right = slice_chars(l, c + 1, l.len());
    let outs = split_fields(&left);
    let bar = find_char_in(&left, '|');
    let colon = find_char_in(&right, ':');
    if outs.len() == 0 || bar < left.len() || colon < right.len() {
        proof {
            if bar < left@.len() {
                assert(has_char(left@, '|'));
            }
            if colon < right@.len() {
                assert(has_char(right@, ':'));
            }
        }
        return None;
    }
    let outputs = strings_of(&outs);
    if split_fields(&right).len() == 0 {
        let r = Rule { outputs, steps: Vec::new() };
        assert(r.steps_view() =~= seq![]);
        return Some(r);
    }
    let parts = cut_at(&right, '|');
    match parse_groups(&parts) {
        Some(steps) => Some(Rule { outputs, steps }),
        None => None,
    }
}

fn parse_groups(parts: &Vec<Vec<char>>) -> (r: Option<Vec<Vec<String>>>)
    ensures
        r.is_some() == groups_of(views(parts@)).is_some(),
        r.is_some() ==> r.unwrap()@.map_values(|g: Vec<String>| strings(g@)) == groups_of(views(parts@)).unwrap(),
{
    let mut steps: Vec<Vec<String>> = Vec::new();
    let mut k: usize = 0;
    while k < parts.len()
        invariant
            k <= parts@.len(),
            groups_of(views(parts@).take(k as int)) == Some(steps@.map_values(|g: Vec<String>| strings(g@))),
        decreases parts@.len() - k,
    {
        let fs = split_fields(&parts[k]);
        proof {
            let t = views(parts@).take(k + 1);
            assert(t.drop_last() =~= views(parts@).take(k as int));
            assert(t.last() == parts@[k as int]@);
        }
        if fs.len() == 0 {
            proof {
                lemma_groups_fail(views(parts@), k + 1);
            }
            return None;
        }
        let ghost before = steps@.map_values(|g: Vec<String>| strings(g@));
        let group = strings_of(&fs);
        steps.push(group);
        assert(steps@.map_values(|g: Vec<String>| strings(g@)) =~= before.push(views(fs@)));
        k += 1;
    }
    assert(views(parts@).take(k as int) =~= views(parts@));
    Some(steps)
}

proof fn lemma_groups_fail(parts: Seq<Seq<char>>, k: int)
    requires
        0 <= k <= parts.len(),
        groups_of(parts.take(k)) is None,
    ensures
        groups_of(parts) is None,
    decreases parts.len() - k,
{
    if k < parts.len() {
        assert(parts.take(k + 1).drop_last() =~= parts.take(k));
        lemma_groups_fail(parts, k + 1);
    } else {
        assert(parts.take(k) =~= parts);
    }
}

/// Binds every name on the left of the last `=` of `line` to the trimmed text after it.
/// Fails when no name stands there.
pub fn assign(vars: &mut VarMap, line: &[char]) -> (r: Result<(), HayError>)
    requires
        old(vars).wf(),
    ensures
        final(vars).wf(),
        r.is_ok() == (all_names(cut(line@, '=').drop_last()).len() > 0),
        r.is_ok() ==> final(vars)@ == assigned(old(vars)@, line@),
        r is Err ==> r->Err_0 is AssignmentMalformed,
        !r.is_ok() ==> final(vars)@ == old(vars)@,
{
    let segs = cut_at(line, '=');
    let n = segs.len();
    assert(n > 0) by {
        assert(cut_from(line@, '=', 0, 0).len() > 0) by {
            lemma_cut_nonempty(line@, '=', 0, 0);
        }
    }
    let value = trim_chars(&segs[n - 1]);
    let mut names: Vec<Vec<char>> = Vec::new();
    let mut k: usize = 0;
    while k + 1 < n
        invariant
            n == segs@.len(),
            n > 0,
            k <= n - 1,
            views(names@) == all_names(views(segs@).take(k as int)),
        decreases n - k,
    {
        let ghost before = views(names@);
        let mut found = split_names(&segs[k]);
        let ghost f = views(found@);
        names.append(&mut found);
        assert(views(names@) =~= before + f);
        assert(views(segs@).take(k + 1).drop_last() =~= views(segs@).take(k as int));
        k += 1;
    }
    assert(views(segs@).take(k as int) =~= views(segs@).drop_last());
    if names.len() == 0 {
        return Err(HayError::AssignmentMalformed);
    }
    let mut j: usize = 0;
    let ghost start = vars@;
    while j < names.len()
        invariant
            vars.wf(),
            j <= names@.len(),
            vars@ == define_all(start, views(names@).take(j as int), value@),
        decreases names@.len() - j,
    {
        vars.bind(copy_chars(&names[j]), copy_chars(&value));
        assert(views(names@).take(j + 1).drop_last() =~= views(names@).take(j as int));
        j += 1;
    }
    assert(views(names@).take(j as int) =~= views(names@));
    Ok(())
}

proof fn lemma_last_end(s: Seq<char>, j: int)
    requires
        0 <= j <= s.len(),
    ensures
        last_non_white_end(s, j) <= j,
    decreases j,
{
    if j > 0 && is_white(s[j - 1]) {
        lemma_last_end(s, j - 1);
    }
}

proof fn lemma_trim_start(s: Seq<char>)
    requires
        trim(s).len() > 0,
    ensures
        first_non_white(s, 0) < s.len(),
{
    lemma_last_end(s, s.len() as int);
}

proof fn lemma_cut_nonempty(t: Seq<char>, sep: char, start: int, i: int)
    requires
        0 <= start <= i <= t.len(),
    ensures
        cut_from(t, sep, start, i).len() > 0,
    decreases t.len() - i,
{
    if i < t.len() {
        if t[i] == sep {
            lemma_cut_nonempty(t, sep, i + 1, i + 1);
        } else {
            lemma_cut_nonempty(t, sep, start, i + 1);
        }
    }
}


/// The parts of `l` between spaces outside single quotes, with where each starts.
pub fn include_parts(l: &[char]) -> (r: Vec<(usize, String)>)
    ensures
        r@.len() == include_files(l@).len(),
        forall|k: int| 0 <= k < r@.len() ==> (#[trigger] r@[k]).1@ == include_files(l@)[k]
            && r@[k].0 as int == balanced_parts(l@, ' ', '\'')[k + 1].0,
{
    let parts = split_balanced(l, ' ', '\'');
    let mut out: Vec<(usize, String)> = Vec::new();
    if parts.len() == 0 {
        return out;
    }
    let mut k: usize = 1;
    while k < parts.len()
        invariant
            1 <= k <= parts@.len(),
            parts@.len() == balanced_parts(l@, ' ', '\'').len(),
            forall|m: int| 0 <= m < parts@.len() ==> (#[trigger] parts@[m]).0 as int == balanced_parts(l@, ' ', '\'')[m].0
                && parts@[m].1@ == balanced_parts(l@, ' ', '\'')[m].1,
            out@.len() == k - 1,
            forall|m: int| 0 <= m < out@.len() ==> (#[trigger] out@[m]).1@ == include_files(l@)[m]
                && out@[m].0 as int == balanced_parts(l@, ' ', '\'')[m + 1].0,
        decreases parts@.len() - k,
    {
        out.push((parts[k].0, from_chars(&parts[k].1)));
        k += 1;
    }
    out
}

impl Hayfile {
    /// A hayfile with nothing read yet.
    pub fn new() -> (r: Hayfile)
        ensures
            r.vars.wf(),
            r.vars@ == Map::<Seq<char>, Seq<char>>::empty(),
            r.recipes@.len() == 0,
    {
        Hayfile { recipes: Vec::new(), vars: VarMap::new() }
    }

    /// Reads one line, after comments were stripped. A blank line changes nothing. An
    /// indented line is a command of the latest recipe. A line with `=` is an assignment.
    /// Any other line is expanded first, then read as an `include`, whose files it returns,
    /// or as a rule header, which starts a new recipe.
    pub fn read_line<L: Launcher>(&mut self, source: &str, launcher: &mut L) -> (r: Result<Option<Import>, HayError>)
        requires
            old(self).vars.wf(),
        ensures
            final(self).vars.wf(),
            ({
                let s = source@;
                let body = body_of(s);
                let n = old(self).recipes@.len();
                match kind_of(s) {
                    LineKind::Blank => r is Ok && r->Ok_0 is None && final(self).recipes@ == old(self).recipes@
                        && final(self).vars@ == old(self).vars@,
                    LineKind::Command => {
                        &&& final(self).vars@ == old(self).vars@
                        &&& if n == 0 {
                            &&& r == Err::<Option<Import>, HayError>(HayError::StrayShell {
                                column: (first_non_white(s, 0) + if debug_of(s) { 1int } else { 0int }) as usize,
                            })
                            &&& final(self).recipes@ == old(self).recipes@
                        } else {
                            &&& r is Ok && r->Ok_0 is None
                            &&& final(self).recipes@.len() == n
                            &&& final(self).recipes@.take(n - 1) == old(self).recipes@.take(n - 1)
                            &&& final(self).recipes@[n - 1].rule == old(self).recipes@[n - 1].rule
                            &&& final(self).recipes@[n - 1].commands@.len() == old(self).recipes@[n - 1].commands@.len() + 1
                            &&& final(self).recipes@[n - 1].commands@.drop_last() == old(self).recipes@[n - 1].commands@
                            &&& final(self).recipes@[n - 1].commands@.last().line@ == body
                            &&& final(self).recipes@[n - 1].commands@.last().debug == debug_of(s)
                        }
                    },
                    LineKind::Assignment => {
                        &&& final(self).recipes@ == old(self).recipes@
                        &&& if all_names(cut(body, '=').drop_last()).len() > 0 {
                            r is Ok && r->Ok_0 is None && final(self).vars@ == assigned(old(self).vars@, body)
                        } else {
                            r is Err && r->Err_0 is AssignmentMalformed && final(self).vars@ == old(self).vars@
                        }
                    },
                    LineKind::Other => exists|oo: Seq<Seq<Option<Seq<char>>>>| {
                        let (res, after) = #[trigger] expand(body, old(self).vars@, oo);
                        &&& final(self).vars@ == after
                        &&& match res {
                            None => r is Err && r->Err_0 is ExpansionRunaway && final(self).recipes@ == old(self).recipes@,
                            Some(e) => if is_include(e) {
                                &&& final(self).recipes@ == old(self).recipes@
                                &&& r is Ok && r->Ok_0 is Some
                                &&& strings((r->Ok_0)->0.files@) == include_files(e)
                            } else {
                                match header(e) {
                                    None => r is Err && r->Err_0 is ParseError && final(self).recipes@ == old(self).recipes@,
                                    Some((outs, steps)) => {
                                        &&& r is Ok && r->Ok_0 is None
                                        &&& final(self).recipes@.len() == n + 1
                                        &&& final(self).recipes@.drop_last() == old(self).recipes@
                                        &&& final(self).recipes@.last().rule.outputs_view() == outs
                                        &&& final(self).recipes@.last().rule.steps_view() == steps
                                        &&& final(self).recipes@.last().commands@.len() == 0
                                    },
                                }
                            },
                        }
                    },
                }
            }),
    {
        let s = to_chars(source);
        let t = trim_chars(&s);
        if t.len() == 0 {
            return Ok(None);
        }
        let debug = t[0] == '+';
        let body = if debug { slice_chars(&t, 1, t.len()) } else { copy_chars(&t) };
        assert(body@ == body_of(s@));
        if is_whitespace(s[0]) {
            let n = self.recipes.len();
            if n == 0 {
                let mut col: usize = 0;
                while col < s.len() && is_whitespace(s[col])
                    invariant
                        col <= s@.len(),
                        first_non_white(s@, 0) == first_non_white(s@, col as int),
                    decreases s@.len() - col,
                {
                    col += 1;
                }
                proof {
                    lemma_trim_start(s@);
                }
                let column = if debug { col + 1 } else { col };
                return Err(HayError::StrayShell { column });
            }
            let mut last = self.recipes.pop().unwrap();
            let ghost before = self.recipes@;
            last.add_command(from_chars(&body), debug);
            self.recipes.push(last);
            proof {
                assert(self.recipes@.take(n - 1) =~= old(self).recipes@.take(n - 1));
            }
            return Ok(None);
        }
        let eq = find_char_in(&body, '=');
        if eq < body.len() {
            assert(has_char(body@, '='));
            return match assign(&mut self.vars, &body) {
                Ok(()) => Ok(None),
                Err(e) => Err(e),
            };
        }
        assert(!has_char(body@, '='));
        let expanded = match expand_chars(&body, &mut self.vars, launcher) {
            Some(e) => e,
            None => {
                return Err(HayError::ExpansionRunaway);
            },
        };
        let inc = to_chars("include");
        if expanded.len() > 7 && is_whitespace(expanded[7]) && crate::vars::same_chars(&slice_chars(&expanded, 0, 7), &inc) {
            let parts = include_parts(&expanded);
            let mut files: Vec<String> = Vec::new();
            let mut k: usize = 0;
            while k < parts.len()
                invariant
                    k <= parts@.len(),
                    parts@.len() == include_files(expanded@).len(),
                    forall|m: int| 0 <= m < parts@.len() ==> (#[trigger] parts@[m]).1@ == include_files(expanded@)[m],
                    strings(files@) == include_files(expanded@).take(k as int),
                decreases parts@.len() - k,
            {
                let ghost before = strings(files@);
                let f = parts[k].1.clone();
                assert(f@ == parts@[k as int].1@);
                files.push(f);
                assert(strings(files@) =~= before.push(parts@[k as int].1@));
                assert(strings(files@) =~= include_files(expanded@).take(k + 1));
                k += 1;
            }
            assert(include_files(expanded@).take(k as int) =~= include_files(expanded@));
            return Ok(Some(Import { files }));
        }
        match parse_header(&expanded) {
            None => Err(HayError::ParseError),
            Some(rule) => {
                self.recipes.push(Recipe::from(rule));
                Ok(None)
            },
        }
    }
}

} // verus!
