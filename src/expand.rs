//! Expansion: rewriting `@name` and `@( pipeline )` until none is left.

use vstd::prelude::*;
use crate::chars::{from_chars, is_name_char, is_var_char, to_chars};
use crate::pipeline::{eval_pipeline, pipeline, chars_of, Launcher};
use crate::scan::slice_chars;
use crate::stages::copy_chars;
use crate::vars::VarMap;

verus! {

/// How many rewrites one expansion may make before it is taken for a runaway.
pub const REWRITE_LIMIT: usize = 64;

/// Expansion gave up: the text kept producing new rewrites.
#[derive(Debug, PartialEq, Eq)]
pub struct Runaway;

/// The end of the run of name characters that starts at `i`.
pub open spec fn name_end(t: Seq<char>, i: int) -> int
    decreases t.len() - i,
{
    if i < 0 || i >= t.len() || !is_name_char(t[i]) {
        i
    } else {
        name_end(t, i + 1)
    }
}

/// The first place to rewrite in `t`, scanning from `i` with the quote state `quoted` and
/// the start of the latest `@(` seen: `(true, a, b)` for a variable `@name` over `a..b`,
/// `(false, a, b)` for a subcall `@( ... )` over `a..b`. Single-quoted text is passed over.
pub open spec fn find_site(t: Seq<char>, i: int, quoted: bool, start: Option<int>) -> Option<(bool, int, int)>
    decreases t.len() - i,
{
    if i < 0 || i >= t.len() {
        None
    } else {
        let c = t[i];
        let q = if c == '\'' { !quoted } else { quoted };
        if q {
            find_site(t, i + 1, q, start)
        } else {
            let n = if i + 1 < t.len() { t[i + 1] } else { ' ' };
            let st = if c == '@' && n == '(' { Some(i) } else { start };
            if st is Some && c == ')' {
                Some((false, st->0, i + 1))
            } else if c == '@' && name_end(t, i + 1) > i + 1 {
                Some((true, i, name_end(t, i + 1)))
            } else {
                find_site(t, i + 1, q, st)
            }
        }
    }
}

/// The value of a variable; an unbound name reads as empty.
pub open spec fn value_of(vars: Map<Seq<char>, Seq<char>>, name: Seq<char>) -> Seq<char> {
    if vars.contains_key(name) {
        vars[name]
    } else {
        seq![]
    }
}

/// The body of a subcall with the name at its head, if any, replaced by its value.
pub open spec fn head_expanded(body: Seq<char>, vars: Map<Seq<char>, Seq<char>>) -> Seq<char> {
    let e = name_end(body, 0);
    if e > 0 {
        value_of(vars, body.subrange(0, e)) + body.subrange(e, body.len() as int)
    } else {
        body
    }
}

/// One rewrite of `t`, or `None` when nothing is left to rewrite; `outs` is what the
/// launcher gave to a subcall's `shell` stages.
pub open spec fn rewrite(t: Seq<char>, vars: Map<Seq<char>, Seq<char>>, outs: Seq<Option<Seq<char>>>) -> Option<(Seq<char>, Map<Seq<char>, Seq<char>>)> {
    match find_site(t, 0, false, None) {
        None => None,
        Some((is_var, a, b)) => {
            if is_var {
                Some((t.subrange(0, a) + value_of(vars, t.subrange(a + 1, b)) + t.subrange(b, t.len() as int), vars))
            } else {
                let body = head_expanded(t.subrange(a + 2, b - 1), vars);
                let (res, after) = pipeline(body, vars, outs);
                let put = match res {
                    Some(x) => x,
                    None => seq![],
                };
                Some((t.subrange(0, a) + put + t.subrange(b, t.len() as int), after))
            }
        },
    }
}

/// What the launcher gave during rewrite `k`.
pub open spec fn outs_at(oo: Seq<Seq<Option<Seq<char>>>>, k: int) -> Seq<Option<Seq<char>>> {
    if 0 <= k < oo.len() {
        oo[k]
    } else {
        seq![]
    }
}

/// The expansion of `t`, rewriting until nothing is left, and the variables after it;
/// `None` when more than `fuel` further rewrites would be needed. Rewrite `k` sees
/// `outs_at(oo, k)`.
pub open spec fn expansion(t: Seq<char>, vars: Map<Seq<char>, Seq<char>>, oo: Seq<Seq<Option<Seq<char>>>>, k: int, fuel: nat) -> (Option<Seq<char>>, Map<Seq<char>, Seq<char>>)
    decreases fuel,
{
    match rewrite(t, vars, outs_at(oo, k)) {
        None => (Some(t), vars),
        Some((next, after)) => {
            if fuel == 0 {
                (None, vars)
            } else {
                expansion(next, after, oo, k + 1, (fuel - 1) as nat)
            }
        },
    }
}

/// The expansion of a string with the rewrite limit of this library.
pub open spec fn expand(t: Seq<char>, vars: Map<Seq<char>, Seq<char>>, oo: Seq<Seq<Option<Seq<char>>>>) -> (Option<Seq<char>>, Map<Seq<char>, Seq<char>>) {
    expansion(t, vars, oo, 0, REWRITE_LIMIT as nat)
}

fn name_end_at(t: &[char], i: usize) -> (r: usize)
    requires
        i <= t@.len(),
    ensures
        r as int == name_end(t@, i as int),
        i <= r <= t@.len(),
{
    let mut j = i;
    while j < t.len() && is_var_char(t[j])
        invariant
            i <= j <= t@.len(),
            name_end(t@, i as int) == name_end(t@, j as int),
        decreases t@.len() - j,
    {
        j += 1;
    }
    j
}

/// The first place to rewrite in `t`.
pub fn next_site(t: &[char]) -> (r: Option<(bool, usize, usize)>)
    ensures
        r.is_some() == find_site(t@, 0, false, None).is_some(),
        r.is_some() ==> ({
            let (v, a, b) = find_site(t@, 0, false, None).unwrap();
            &&& r.unwrap().0 == v
            &&& r.unwrap().1 as int == a
            &&& r.unwrap().2 as int == b
        }),
        r.is_some() ==> ({
            let (v, a, b) = r.unwrap();
            &&& a < b <= t@.len()
            &&& !v ==> a + 2 <= b - 1
            &&& v ==> a + 1 < b
        }),
{
    let mut quoted = false;
    let mut start: Option<usize> = None;
    let mut i: usize = 0;
    while i < t.len()
        invariant
            i <= t@.len(),
            start.is_some() ==> start.unwrap() + 1 <= i && start.unwrap() + 1 < t@.len() && t@[start.unwrap() + 1] == '(',
            find_site(t@, 0, false, None) == find_site(
                t@,
                i as int,
                quoted,
                match start {
                    Some(s) => Some(s as int),
                    None => None,
                },
            ),
        decreases t@.len() - i,
    {
        let c = t[i];
        if c == '\'' {
            quoted = !quoted;
        }
        if !quoted {
            let n = if i + 1 < t.len() { t[i + 1] } else { ' ' };
            if c == '@' && n == '(' {
                start = Some(i);
            }
            match start {
                Some(s) => {
                    if c == ')' {
                        return Some((false, s, i + 1));
                    }
                },
                None => {},
            }
            if c == '@' {
                let e = name_end_at(t, i + 1);
                if e > i + 1 {
                    return Some((true, i, e));
                }
            }
        }
        i += 1;
    }
    None
}

fn value_or_empty(vars: &VarMap, name: &[char]) -> (r: Vec<char>)
    requires
        vars.wf(),
    ensures
        r@ == value_of(vars@, name@),
{
    match vars.lookup(name) {
        Some(v) => copy_chars(v),
        None => Vec::new(),
    }
}

fn splice(t: &[char], a: usize, b: usize, put: &[char]) -> (r: Vec<char>)
    requires
        a <= b <= t@.len(),
    ensures
        r@ == t@.subrange(0, a as int) + put@ + t@.subrange(b as int, t@.len() as int),
{
    let mut v = slice_chars(t, 0, a);
    let mut k: usize = 0;
    while k < put.len()
        invariant
            k <= put@.len(),
            v@ == t@.subrange(0, a as int) + put@.take(k as int),
        decreases put@.len() - k,
    {
        v.push(put[k]);
        k += 1;
        assert(v@ =~= t@.subrange(0, a as int) + put@.take(k as int));
    }
    let mut j = b;
    while j < t.len()
        invariant
            b <= j <= t@.len(),
            v@ == t@.subrange(0, a as int) + put@ + t@.subrange(b as int, j as int),
        decreases t@.len() - j,
    {
        v.push(t[j]);
        j += 1;
        assert(v@ =~= t@.subrange(0, a as int) + put@ + t@.subrange(b as int, j as int));
    }
    assert(put@.take(k as int) =~= put@);
    v
}

/// Expands `text`: rewrites the first `@name` (to its value in `vars`, or to nothing) or
/// innermost `@( ... )` (to the result of its pipeline, or to nothing when it fails) outside
/// single quotes, and starts over, until nothing is left to rewrite. Fails with `Runaway`
/// when that takes more than `REWRITE_LIMIT` rewrites. Subcalls may bind names in `vars`.
pub fn derive<L: Launcher>(text: &str, vars: &mut VarMap, launcher: &mut L) -> (r: Result<String, Runaway>)
    requires
        old(vars).wf(),
    ensures
        final(vars).wf(),
        exists|oo: Seq<Seq<Option<Seq<char>>>>| #[trigger] expand(text@, old(vars)@, oo)
            == (match r { Ok(s) => Some(s@), Err(_) => None::<Seq<char>> }, final(vars)@),
{
    let t0 = to_chars(text);
    match expand_chars(&t0, vars, launcher) {
        Some(v) => Ok(from_chars(&v)),
        None => Err(Runaway),
    }
}

/// `derive` on characters; `None` for a runaway.
pub fn expand_chars<L: Launcher>(text: &[char], vars: &mut VarMap, launcher: &mut L) -> (r: Option<Vec<char>>)
    requires
        old(vars).wf(),
    ensures
        final(vars).wf(),
        exists|oo: Seq<Seq<Option<Seq<char>>>>| #[trigger] expand(text@, old(vars)@, oo)
            == (chars_of(r), final(vars)@),
{
    let ghost v0 = vars@;
    let mut t = copy_chars(text);
    let ghost mut acc: Seq<Seq<Option<Seq<char>>>> = seq![];
    let mut count: usize = 0;
    loop
        invariant
            count <= REWRITE_LIMIT,
            acc.len() == count,
            vars.wf(),
            v0 == old(vars)@,
            forall|oo: Seq<Seq<Option<Seq<char>>>>| oo.len() >= count && oo.take(count as int) == acc
                ==> #[trigger] expand(text@, v0, oo) == expansion(t@, vars@, oo, count as int, (REWRITE_LIMIT - count) as nat),
        decreases REWRITE_LIMIT - count,
    {
        let ghost tc = t@;
        let ghost vc = vars@;
        let site = next_site(&t);
        match site {
            None => {
                proof {
                    let oo = acc;
                    assert(oo.take(count as int) =~= acc);
                    assert(expand(text@, v0, oo) == (Some(tc), vc));
                }
                return Some(t);
            },
            Some((is_var, a, b)) => {
                if count == REWRITE_LIMIT {
                    proof {
                        let oo = acc;
                        assert(oo.take(count as int) =~= acc);
                        assert(expand(text@, v0, oo) == (None::<Seq<char>>, vc));
                    }
                    return None;
                }
                if is_var {
                    let name = slice_chars(&t, a + 1, b);
                    let value = value_or_empty(vars, &name);
                    let next = splice(&t, a, b, &value);
                    proof {
                        let acc2 = acc.push(seq![]);
                        assert forall|oo: Seq<Seq<Option<Seq<char>>>>| oo.len() >= count + 1 && oo.take(count + 1) == acc2
                            implies #[trigger] expand(text@, v0, oo) == expansion(next@, vc, oo, count + 1, (REWRITE_LIMIT - (count + 1)) as nat) by {
                            assert(oo.take(count as int) =~= acc);
                        }
                        acc = acc2;
                    }
                    t = next;
                } else {
                    let body = slice_chars(&t, a + 2, b - 1);
                    let e = name_end_at(&body, 0);
                    let body = if e > 0 {
                        let name = slice_chars(&body, 0, e);
                        let value = value_or_empty(vars, &name);
                        splice(&body, 0, e, &value)
                    } else {
                        body
                    };
                    proof {
                        assert(t@.subrange(a + 2, b - 1).subrange(0, 0) =~= seq![]);
                    }
                    assert(body@ == head_expanded(t@.subrange(a + 2, b - 1), vc));
                    let res = eval_pipeline(&body, vars, launcher);
                    let put = match res {
                        Some(x) => x,
                        None => Vec::new(),
                    };
                    let next = splice(&t, a, b, &put);
                    proof {
                        let outs = choose|outs: Seq<Option<Seq<char>>>| #[trigger] pipeline(body@, vc, outs) == (chars_of(res), vars@);
                        let acc2 = acc.push(outs);
                        assert forall|oo: Seq<Seq<Option<Seq<char>>>>| oo.len() >= count + 1 && oo.take(count + 1) == acc2
                            implies #[trigger] expand(text@, v0, oo) == expansion(next@, vars@, oo, count + 1, (REWRITE_LIMIT - (count + 1)) as nat) by {
                            assert(oo.take(count as int) =~= acc);
                            assert(oo.take(count + 1)[count as int] == oo[count as int]);
                            assert(outs_at(oo, count as int) == outs);
                        }
                        acc = acc2;
                    }
                    t = next;
                }
                count += 1;
            },
        }
    }
}

} // verus!
