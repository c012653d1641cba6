//! Quote-aware scanning: pipeline tokens and balanced splitting.

use vstd::prelude::*;
use crate::chars::{is_white, is_whitespace};

verus! {

/// The first index at or after `i` that holds `c`, or the length of `s`.
pub open spec fn find_from(s: Seq<char>, i: int, c: char) -> int
    decreases s.len() - i,
{
    if i < 0 || i >= s.len() {
        s.len() as int
    } else if s[i] == c {
        i
    } else {
        find_from(s, i + 1, c)
    }
}

/// The end of the run of non-white characters that starts at `i`.
pub open spec fn run_end(s: Seq<char>, i: int) -> int
    decreases s.len() - i,
{
    if i < 0 || i >= s.len() || is_white(s[i]) {
        i
    } else {
        run_end(s, i + 1)
    }
}

/// The end of the token that starts at `i`: a quoted span `'...'` or `"..."` when its
/// closing quote exists, else a run of non-white characters.
pub open spec fn token_end(s: Seq<char>, i: int) -> int {
    if 0 <= i < s.len() && (s[i] == '\'' || s[i] == '"') && find_from(s, i + 1, s[i]) < s.len() {
        find_from(s, i + 1, s[i]) + 1
    } else {
        run_end(s, i)
    }
}

/// The text of a token: single quotes around it are taken off.
pub open spec fn unwrap_single(t: Seq<char>) -> Seq<char> {
    if t.len() >= 2 && t[0] == '\'' && t[t.len() - 1] == '\'' {
        t.subrange(1, t.len() - 1)
    } else {
        t
    }
}

/// The tokens of `s` from index `i` on.
pub open spec fn tokens_from(s: Seq<char>, i: int) -> Seq<Seq<char>>
    decreases s.len() - i,
{
    if i < 0 || i >= s.len() {
        seq![]
    } else if is_white(s[i]) {
        tokens_from(s, i + 1)
    } else {
        let e = token_end(s, i);
        if e <= i || e > s.len() {
            seq![]
        } else {
            seq![unwrap_single(s.subrange(i, e))] + tokens_from(s, e)
        }
    }
}

/// The tokens of a string, separated by white space; `'...'` and `"..."` are single tokens,
/// and single quotes are taken off.
pub open spec fn tokens(s: Seq<char>) -> Seq<Seq<char>> {
    tokens_from(s, 0)
}

pub proof fn lemma_find_from(s: Seq<char>, i: int, c: char)
    requires
        0 <= i <= s.len(),
    ensures
        i <= find_from(s, i, c) <= s.len(),
        find_from(s, i, c) < s.len() ==> s[find_from(s, i, c)] == c,
        forall|j: int| i <= j < find_from(s, i, c) ==> s[j] != c,
    decreases s.len() - i,
{
    if i < s.len() && s[i] != c {
        lemma_find_from(s, i + 1, c);
    }
}

pub proof fn lemma_run_end(s: Seq<char>, i: int)
    requires
        0 <= i <= s.len(),
    ensures
        i <= run_end(s, i) <= s.len(),
        run_end(s, i) < s.len() ==> is_white(s[run_end(s, i)]),
        forall|j: int| i <= j < run_end(s, i) ==> !is_white(s[j]),
    decreases s.len() - i,
{
    if i < s.len() && !is_white(s[i]) {
        lemma_run_end(s, i + 1);
    }
}

pub proof fn lemma_token_end(s: Seq<char>, i: int)
    requires
        0 <= i < s.len(),
        !is_white(s[i]),
    ensures
        i < token_end(s, i) <= s.len(),
{
    lemma_find_from(s, i + 1, s[i]);
    lemma_run_end(s, i);
    lemma_run_end(s, i + 1);
}

fn find_char(s: &[char], i: usize, c: char) -> (r: usize)
    requires
        i <= s@.len(),
    ensures
        r == find_from(s@, i as int, c),
{
    let mut j = i;
    while j < s.len()
        invariant
            i <= j <= s@.len(),
            find_from(s@, i as int, c) == find_from(s@, j as int, c),
        decreases s@.len() - j,
    {
        if s[j] == c {
            return j;
        }
        j += 1;
    }
    j
}

fn end_of_run(s: &[char], i: usize) -> (r: usize)
    requires
        i <= s@.len(),
    ensures
        r == run_end(s@, i as int),
{
    let mut j = i;
    while j < s.len()
        invariant
            i <= j <= s@.len(),
            run_end(s@, i as int) == run_end(s@, j as int),
        decreases s@.len() - j,
    {
        if is_whitespace(s[j]) {
            return j;
        }
        j += 1;
    }
    j
}

/// The characters of `s` from `a` up to `b`.
pub fn slice_chars(s: &[char], a: usize, b: usize) -> (r: Vec<char>)
    requires
        a <= b <= s@.len(),
    ensures
        r@ == s@.subrange(a as int, b as int),
{
    let mut v: Vec<char> = Vec::new();
    let mut i = a;
    while i < b
        invariant
            a <= i <= b <= s@.len(),
            v@ == s@.subrange(a as int, i as int),
        decreases b - i,
    {
        v.push(s[i]);
        i += 1;
        assert(v@ =~= s@.subrange(a as int, i as int));
    }
    v
}

/// The views of a vector of character vectors.
pub open spec fn views(v: Seq<Vec<char>>) -> Seq<Seq<char>> {
    v.map_values(|t: Vec<char>| t@)
}

/// Splits `s` into its tokens.
pub fn tokenize(s: &[char]) -> (r: Vec<Vec<char>>)
    ensures
        views(r@) == tokens(s@),
{
    let mut out: Vec<Vec<char>> = Vec::new();
    let mut i: usize = 0;
    while i < s.len()
        invariant
            i <= s@.len(),
            views(out@) + tokens_from(s@, i as int) == tokens(s@),
        decreases s@.len() - i,
    {
        if is_whitespace(s[i]) {
            i += 1;
        } else {
            proof {
                lemma_token_end(s@, i as int);
                lemma_find_from(s@, i + 1, s@[i as int]);
            }
            let c = s[i];
            let mut e = end_of_run(s, i);
            if c == '\'' || c == '"' {
                let q = find_char(s, i + 1, c);
                if q < s.len() {
                    e = q + 1;
                }
            }
            assert(e == token_end(s@, i as int));
            let ghost tail = tokens_from(s@, e as int);
            let t = if e - i >= 2 && s[i] == '\'' && s[e - 1] == '\'' {
                slice_chars(s, i + 1, e - 1)
            } else {
                slice_chars(s, i, e)
            };
            assert(t@ == unwrap_single(s@.subrange(i as int, e as int)));
            let ghost before = views(out@);
            out.push(t);
            assert(views(out@) =~= before.push(t@));
            assert(views(out@) + tail =~= before + (seq![t@] + tail));
            i = e;
        }
    }
    assert(views(out@) =~= views(out@) + tokens_from(s@, i as int));
    out
}

/// The non-empty pieces of `s` between the occurrences of `on` that stand outside a span
/// quoted by `quote`, each with the index where it starts. The scan has passed `i`; the
/// current piece started at `start`.
pub open spec fn pieces(s: Seq<char>, on: char, quote: char, i: int, start: int, quoted: bool) -> Seq<(int, Seq<char>)>
    decreases s.len() - i,
{
    if i < 0 || i >= s.len() {
        if start < s.len() {
            seq![(start, s.subrange(start, s.len() as int))]
        } else {
            seq![]
        }
    } else {
        let q = if s[i] == quote { !quoted } else { quoted };
        if !q && s[i] == on {
            if start < i {
                seq![(start, s.subrange(start, i))] + pieces(s, on, quote, i + 1, i + 1, q)
            } else {
                pieces(s, on, quote, i + 1, i + 1, q)
            }
        } else {
            pieces(s, on, quote, i + 1, start, q)
        }
    }
}

/// The non-empty parts of `s` between unquoted occurrences of `on`, with their starts.
pub open spec fn balanced_parts(s: Seq<char>, on: char, quote: char) -> Seq<(int, Seq<char>)> {
    pieces(s, on, quote, 0, 0, false)
}

/// Splits `s` on each `on` that stands outside a span quoted by `quote`; empty parts are
/// dropped, and each part comes with the index of its first character.
pub fn split_balanced(s: &[char], on: char, quote: char) -> (r: Vec<(usize, Vec<char>)>)
    ensures
        r@.len() == balanced_parts(s@, on, quote).len(),
        forall|k: int| 0 <= k < r@.len() ==> r@[k].0 as int == (#[trigger] balanced_parts(s@, on, quote)[k]).0
            && r@[k].1@ == balanced_parts(s@, on, quote)[k].1,
{
    let mut out: Vec<(usize, Vec<char>)> = Vec::new();
    let ghost outv: Seq<(int, Seq<char>)> = seq![];
    let mut start: usize = 0;
    let mut quoted = false;
    let mut i: usize = 0;
    while i < s.len()
        invariant
            start <= i <= s@.len(),
            outv.len() == out@.len(),
            forall|k: int| 0 <= k < out@.len() ==> out@[k].0 as int == (#[trigger] outv[k]).0
                && out@[k].1@ == outv[k].1,
            outv + pieces(s@, on, quote, i as int, start as int, quoted) == balanced_parts(s@, on, quote),
        decreases s@.len() - i,
    {
        if s[i] == quote {
            quoted = !quoted;
        }
        if !quoted && s[i] == on {
            if start < i {
                let piece = slice_chars(s, start, i);
                proof {
                    let p = (start as int, s@.subrange(start as int, i as int));
                    assert(outv.push(p) + pieces(s@, on, quote, i + 1, i + 1, quoted)
                        =~= outv + (seq![p] + pieces(s@, on, quote, i + 1, i + 1, quoted)));
                    outv = outv.push(p);
                }
                out.push((start, piece));
            }
            start = i + 1;
        }
        i += 1;
    }
    if start < s.len() {
        let piece = slice_chars(s, start, s.len());
        proof {
            let p = (start as int, s@.subrange(start as int, s@.len() as int));
            outv = outv.push(p);
        }
        out.push((start, piece));
    }
    assert(outv =~= balanced_parts(s@, on, quote));
    out
}

} // verus!
