//! Comment stripping: `#` and `//` to the end of a line, nested `/* ... */` blocks.

use vstd::prelude::*;
use crate::chars::{from_chars, to_chars};

verus! {

/// The lines of `t` from the one that starts at `start`, the scan being at `i`: the pieces
/// between newlines, the last one included even when empty.
pub open spec fn lines_from(t: Seq<char>, start: int, i: int) -> Seq<Seq<char>>
    decreases t.len() - i,
{
    if i < 0 || start < 0 || start > i || i >= t.len() {
        seq![t.subrange(start, t.len() as int)]
    } else if t[i] == '\n' {
        seq![t.subrange(start, i)] + lines_from(t, i + 1, i + 1)
    } else {
        lines_from(t, start, i + 1)
    }
}

/// The lines of `t`.
pub open spec fn lines(t: Seq<char>) -> Seq<Seq<char>> {
    lines_from(t, 0, 0)
}

/// The rest of line `l` from `i` with comments taken out, and the block depth after it.
/// `depth` is the number of open blocks; `ignore` holds once a line comment marker was met
/// inside a block, after which block markers on this line count for nothing.
pub open spec fn strip_from(l: Seq<char>, blank: Seq<char>, i: int, depth: nat, ignore: bool) -> (Seq<char>, nat)
    decreases l.len() - i,
{
    if i < 0 || i >= l.len() {
        (seq![], depth)
    } else {
        let c = l[i];
        let n = if i + 1 < l.len() { l[i + 1] } else { ' ' };
        let marker = c == '#' || (c == '/' && n == '/');
        if !ignore && c == '/' && n == '*' {
            let (rest, d) = strip_from(l, blank, i + 2, depth + 1, ignore);
            (blank + blank + rest, d)
        } else if !ignore && c == '*' && n == '/' && depth != 0 {
            let (rest, d) = strip_from(l, blank, i + 2, (depth - 1) as nat, ignore);
            (blank + blank + rest, d)
        } else if marker && depth == 0 {
            (seq![], depth)
        } else {
            let (rest, d) = strip_from(l, blank, i + 1, depth, ignore || marker);
            if depth == 0 {
                (seq![c] + rest, d)
            } else {
                (blank + rest, d)
            }
        }
    }
}

/// The lines with comments taken out, the first one starting at block depth `depth`.
pub open spec fn strip_lines(ls: Seq<Seq<char>>, blank: Seq<char>, depth: nat) -> Seq<Seq<char>>
    decreases ls.len(),
{
    if ls.len() == 0 {
        seq![]
    } else {
        let (out, d) = strip_from(ls[0], blank, 0, depth, false);
        seq![out] + strip_lines(ls.drop_first(), blank, d)
    }
}

/// The characters of each string.
pub open spec fn string_views(v: Seq<String>) -> Seq<Seq<char>> {
    v.map_values(|s: String| s@)
}

fn push_all(v: &mut Vec<char>, b: &[char])
    ensures
        final(v)@ == old(v)@ + b@,
{
    let ghost start = v@;
    let mut k: usize = 0;
    while k < b.len()
        invariant
            k <= b@.len(),
            v@ == start + b@.take(k as int),
        decreases b@.len() - k,
    {
        v.push(b[k]);
        k += 1;
        assert(v@ =~= start + b@.take(k as int));
    }
    assert(b@.take(k as int) =~= b@);
}

/// Strips the line `t[a..b]`, starting at block depth `depth`.
fn strip_line(t: &[char], a: usize, b: usize, blank: &[char], depth: usize) -> (r: (Vec<char>, usize))
    requires
        depth <= a <= b <= t@.len(),
    ensures
        (r.0@, r.1 as nat) == strip_from(t@.subrange(a as int, b as int), blank@, 0, depth as nat, false),
        r.1 <= b,
{
    let ghost l = t@.subrange(a as int, b as int);
    let mut out: Vec<char> = Vec::new();
    let mut d = depth;
    let mut ignore = false;
    let mut j = a;
    while j < b
        invariant
            a <= j <= b,
            b <= t@.len(),
            l == t@.subrange(a as int, b as int),
            d <= j,
            ({
                let (rest, e) = strip_from(l, blank@, (j - a) as int, d as nat, ignore);
                (out@ + rest, e) == strip_from(l, blank@, 0, depth as nat, false)
            }),
        decreases b - j,
    {
        let ghost i = (j - a) as int;
        let c = t[j];
        let n = if j + 1 < b { t[j + 1] } else { ' ' };
        assert(l[i] == c);
        assert(i + 1 < l.len() ==> l[i + 1] == n);
        let marker = c == '#' || (c == '/' && n == '/');
        if !ignore && c == '/' && n == '*' {
            let ghost before = out@;
            push_all(&mut out, blank);
            push_all(&mut out, blank);
            assert(out@ =~= before + blank@ + blank@);
            d = d + 1;
            j = j + 2;
        } else if !ignore && c == '*' && n == '/' && d != 0 {
            let ghost before = out@;
            push_all(&mut out, blank);
            push_all(&mut out, blank);
            assert(out@ =~= before + blank@ + blank@);
            d = d - 1;
            j = j + 2;
        } else if marker && d == 0 {
            assert(strip_from(l, blank@, i, d as nat, ignore).0 =~= seq![]);
            assert(out@ + seq![] =~= out@);
            return (out, d);
        } else {
            let ghost before = out@;
            if d == 0 {
                out.push(c);
                assert(out@ =~= before + seq![c]);
            } else {
                push_all(&mut out, blank);
            }
            ignore = ignore || marker;
            j = j + 1;
        }
    }
    assert(strip_from(l, blank@, (j - a) as int, d as nat, ignore) == (Seq::<char>::empty(), d as nat));
    assert(out@ + Seq::<char>::empty() =~= out@);
    (out, d)
}

/// The lines of `text` with comments taken out. Each line keeps its place; outside a block a
/// `#` or `//` ends the line; inside blocks (which nest) every character becomes `blank`, and
/// the markers `/*` and `*/` become two blanks each.
pub fn uncomment(text: &str, blank: &str) -> (r: Vec<String>)
    ensures
        string_views(r@) == strip_lines(lines(text@), blank@, 0),
{
    let t = to_chars(text);
    let b = to_chars(blank);
    let mut out: Vec<String> = Vec::new();
    let mut depth: usize = 0;
    let mut start: usize = 0;
    loop
        invariant
            start <= t@.len(),
            t@ == text@,
            b@ == blank@,
            depth <= start,
            string_views(out@) + strip_lines(lines_from(t@, start as int, start as int), b@, depth as nat)
                == strip_lines(lines(t@), b@, 0),
        decreases t@.len() - start,
    {
        let mut e = start;
        while e < t.len() && t[e] != '\n'
            invariant
                start <= e <= t@.len(),
                lines_from(t@, start as int, start as int) == lines_from(t@, start as int, e as int),
            decreases t@.len() - e,
        {
            e += 1;
        }
        let (line, d) = strip_line(&t, start, e, &b, depth);
        let ghost before = string_views(out@);
        let s = from_chars(&line);
        out.push(s);
        assert(string_views(out@) =~= before.push(line@));
        if e >= t.len() {
            proof {
                let ls = lines_from(t@, start as int, start as int);
                assert(ls == seq![t@.subrange(start as int, t@.len() as int)]);
                assert(ls[0] == t@.subrange(start as int, e as int));
                assert(strip_lines(ls, b@, depth as nat) == seq![line@] + strip_lines(ls.drop_first(), b@, d as nat));
                assert(ls.drop_first() =~= Seq::<Seq<char>>::empty());
                assert(before + strip_lines(ls, b@, depth as nat) =~= before.push(line@));
            }
            return out;
        }
        proof {
            let ls = lines_from(t@, start as int, start as int);
            assert(ls == seq![t@.subrange(start as int, e as int)] + lines_from(t@, e + 1, e + 1));
            assert(ls.drop_first() =~= lines_from(t@, e + 1, e + 1));
            assert(before + strip_lines(ls, b@, depth as nat) =~= before.push(line@) + strip_lines(lines_from(t@, e + 1, e + 1), b@, d as nat));
        }
        depth = d;
        start = e + 1;
    }
}

} // verus!
