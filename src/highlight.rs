//! Colors for the macro syntax of a line, for display in a terminal.

use vstd::prelude::*;
use crate::chars::{from_chars, to_chars, unicode_alnum};

verus! {

pub open spec fn blue() -> Seq<char> {
    "\x1b[34;1m"@
}

pub open spec fn pink() -> Seq<char> {
    "\x1b[38;5;161;1m"@
}

pub open spec fn grey() -> Seq<char> {
    "\x1b[0;0m\x1b[90m"@
}

pub open spec fn clear() -> Seq<char> {
    "\x1b[0;0m"@
}

/// A letter or a digit, by `char::is_alphanumeric` outside ASCII.
pub open spec fn is_alnum(c: char) -> bool {
    if (c as u32) < 128 {
        ('a' <= c && c <= 'z') || ('A' <= c && c <= 'Z') || ('0' <= c && c <= '9')
    } else {
        unicode_alnum(c)
    }
}

/// The highlighted rest of `t` from `i`: `depth` subcalls are open, `quoted` inside single
/// quotes, `coloring` inside a colored name. Quoted text stays as it is; `@(` and the `)`
/// and `|` of an open subcall are blue, with the text after `@(` pink; `@name` is pink up
/// to the first character that is not a letter or digit, after which the color is grey.
pub open spec fn marked(t: Seq<char>, i: int, depth: nat, quoted: bool, coloring: bool) -> Seq<char>
    decreases t.len() - i,
{
    if i < 0 || i >= t.len() {
        seq![]
    } else {
        let c = t[i];
        let n = if i + 1 < t.len() { t[i + 1] } else { ' ' };
        let reset = coloring && !is_alnum(c);
        let pre = if reset { grey() } else { seq![] };
        let colored = coloring && !reset;
        let q = if c == '\'' { !quoted } else { quoted };
        if q {
            pre + seq![c] + marked(t, i + 1, depth, q, colored)
        } else if c == '@' && n == '(' {
            pre + blue() + seq!['@', '('] + pink() + marked(t, i + 2, depth + 1, q, true)
        } else if depth > 0 && c == ')' {
            pre + blue() + seq![')'] + grey() + marked(t, i + 1, (depth - 1) as nat, q, colored)
        } else if depth > 0 && c == '|' {
            pre + blue() + seq!['|'] + grey() + marked(t, i + 1, depth, q, colored)
        } else if c == '@' && is_alnum(n) {
            pre + pink() + seq!['@'] + marked(t, i + 1, depth, q, true)
        } else {
            pre + seq![c] + marked(t, i + 1, depth, q, colored)
        }
    }
}

fn is_alphanumeric(c: char) -> (r: bool)
    ensures
        r == is_alnum(c),
{
    if (c as u32) < 128 {
        ('a' <= c && c <= 'z') || ('A' <= c && c <= 'Z') || ('0' <= c && c <= '9')
    } else {
        crate::chars::std_is_alphanumeric(c)
    }
}

fn push_all(v: &mut Vec<char>, b: &[char])
    ensures
        final(v)@ == old(v)@ + b@,
{
    let ghost start = v@;
    let mut k: usize = 0;
    while k < b.len()
        invariant
            k <= b@.len(),
            v@ == start + b@.take(k as int),
        decreases b@.len() - k,
    {
        v.push(b[k]);
        k += 1;
        assert(v@ =~= start + b@.take(k as int));
    }
    assert(b@.take(k as int) =~= b@);
}

/// One step of highlighting at `i`: the text it writes and the state after it.
#[verifier::rlimit(50)]
fn mark_step(
    t: &[char],
    i: usize,
    depth: usize,
    quoted: bool,
    coloring: bool,
    blue_c: &[char],
    pink_c: &[char],
    grey_c: &[char],
) -> (r: (Vec<char>, usize, usize, bool, bool))
    requires
        i < t@.len(),
        depth <= i,
        blue_c@ == blue(),
        pink_c@ == pink(),
        grey_c@ == grey(),
    ensures
        i < r.1 <= t@.len(),
        r.2 <= r.1,
        marked(t@, i as int, depth as nat, quoted, coloring) == r.0@ + marked(t@, r.1 as int, r.2 as nat, r.3, r.4),
{
    let mut out: Vec<char> = Vec::new();
    let c = t[i];
    let n = if i + 1 < t.len() { t[i + 1] } else { ' ' };
    let mut colored = coloring;
    if coloring && !is_alphanumeric(c) {
        push_all(&mut out, grey_c);
        colored = false;
    }
    let ghost pre = out@;
    assert(pre == (if coloring && !is_alnum(c) { grey() } else { seq![] }));
    let q = if c == '\'' { !quoted } else { quoted };
    if q {
        out.push(c);
        assert(out@ =~= pre + seq![c]);
        (out, i + 1, depth, q, colored)
    } else if c == '@' && n == '(' {
        push_all(&mut out, blue_c);
        out.push('@');
        out.push('(');
        push_all(&mut out, pink_c);
        assert(out@ =~= pre + blue() + seq!['@', '('] + pink());
        (out, i + 2, depth + 1, q, true)
    } else if depth > 0 && c == ')' {
        push_all(&mut out, blue_c);
        out.push(')');
        push_all(&mut out, grey_c);
        assert(out@ =~= pre + blue() + seq![')'] + grey());
        (out, i + 1, depth - 1, q, colored)
    } else if depth > 0 && c == '|' {
        push_all(&mut out, blue_c);
        out.push('|');
        push_all(&mut out, grey_c);
        assert(out@ =~= pre + blue() + seq!['|'] + grey());
        (out, i + 1, depth, q, colored)
    } else if c == '@' && is_alphanumeric(n) {
        push_all(&mut out, pink_c);
        out.push('@');
        assert(out@ =~= pre + pink() + seq!['@']);
        (out, i + 1, depth, q, true)
    } else {
        out.push(c);
        assert(out@ =~= pre + seq![c]);
        (out, i + 1, depth, q, colored)
    }
}

/// `text` with its macro syntax colored, opened in grey and closed with a color reset.
pub fn add_highlights(text: &str) -> (r: String)
    ensures
        r@ == grey() + grey() + marked(text@, 0, 0, false, false) + clear(),
{
    let t = to_chars(text);
    let blue_c = to_chars("\x1b[34;1m");
    let pink_c = to_chars("\x1b[38;5;161;1m");
    let grey_c = to_chars("\x1b[0;0m\x1b[90m");
    let clear_c = to_chars("\x1b[0;0m");
    let mut out: Vec<char> = Vec::new();
    let mut depth: usize = 0;
    let mut quoted = false;
    let mut coloring = false;
    let mut i: usize = 0;
    while i < t.len()
        invariant
            i <= t@.len(),
            depth <= i,
            blue_c@ == blue(),
            pink_c@ == pink(),
            grey_c@ == grey(),
            out@ + marked(t@, i as int, depth as nat, quoted, coloring) == marked(t@, 0, 0, false, false),
        decreases t@.len() - i,
    {
        let ghost before = out@;
        let (piece, i2, d2, q2, c2) = mark_step(&t, i, depth, quoted, coloring, &blue_c, &pink_c, &grey_c);
        push_all(&mut out, &piece);
        assert(out@ + marked(t@, i2 as int, d2 as nat, q2, c2) =~= before + (piece@ + marked(t@, i2 as int, d2 as nat, q2, c2)));
        i = i2;
        depth = d2;
        quoted = q2;
        coloring = c2;
    }
    assert(out@ + Seq::<char>::empty() =~= out@);
    let mut all: Vec<char> = Vec::new();
    push_all(&mut all, &grey_c);
    push_all(&mut all, &grey_c);
    push_all(&mut all, &out);
    push_all(&mut all, &clear_c);
    assert(all@ =~= grey() + grey() + marked(t@, 0, 0, false, false) + clear());
    from_chars(&all)
}

} // verus!
