//! Laws of expansion and of the pipeline commands.

use vstd::prelude::*;
use crate::chars::is_name_char;
use crate::expand::{expand, expansion, find_site, name_end, rewrite, outs_at, value_of, REWRITE_LIMIT};

verus! {

proof fn lemma_no_at_no_site(t: Seq<char>, i: int, quoted: bool)
    requires
        0 <= i <= t.len(),
        forall|k: int| 0 <= k < t.len() ==> t[k] != '@',
    ensures
        find_site(t, i, quoted, None) is None,
    decreases t.len() - i,
{
    if i < t.len() {
        let q = if t[i] == '\'' { !quoted } else { quoted };
        lemma_no_at_no_site(t, i + 1, q);
    }
}

/// A string without `@` expands to itself, and leaves the variables as they were.
pub proof fn law_no_at_unchanged(t: Seq<char>, vars: Map<Seq<char>, Seq<char>>, oo: Seq<Seq<Option<Seq<char>>>>)
    requires
        forall|k: int| 0 <= k < t.len() ==> t[k] != '@',
    ensures
        expand(t, vars, oo) == (Some(t), vars),
{
    lemma_no_at_no_site(t, 0, false);
}

proof fn lemma_quoted_no_site(t: Seq<char>, i: int)
    requires
        t.len() >= 2,
        t[t.len() - 1] == '\'',
        1 <= i <= t.len() - 1,
        forall|k: int| 1 <= k < t.len() - 1 ==> t[k] != '\'',
    ensures
        find_site(t, i, true, None) is None,
    decreases t.len() - i,
{
    if i < t.len() - 1 {
        lemma_quoted_no_site(t, i + 1);
    } else {
        assert(find_site(t, t.len() as int, false, None) is None);
    }
}

/// A single-quoted span `'s'` comes out of expansion as it went in, whatever `@` it holds.
pub proof fn law_quoted_unchanged(s: Seq<char>, vars: Map<Seq<char>, Seq<char>>, oo: Seq<Seq<Option<Seq<char>>>>)
    requires
        forall|k: int| 0 <= k < s.len() ==> s[k] != '\'',
    ensures
        expand(seq!['\''] + s + seq!['\''], vars, oo) == (Some(seq!['\''] + s + seq!['\'']), vars),
{
    let t = seq!['\''] + s + seq!['\''];
    assert forall|k: int| 1 <= k < t.len() - 1 implies t[k] != '\'' by {
        assert(t[k] == s[k - 1]);
    }
    lemma_quoted_no_site(t, 1);
}

proof fn lemma_name_end_all(t: Seq<char>, i: int)
    requires
        0 <= i <= t.len(),
        forall|k: int| i <= k < t.len() ==> is_name_char(#[trigger] t[k]),
    ensures
        name_end(t, i) == t.len(),
    decreases t.len() - i,
{
    if i < t.len() {
        lemma_name_end_all(t, i + 1);
    }
}

/// A reference `@k` to a name made of name characters is a rewrite of the whole string.
proof fn lemma_reference_site(k: Seq<char>)
    requires
        k.len() > 0,
        forall|i: int| 0 <= i < k.len() ==> is_name_char(#[trigger] k[i]),
    ensures
        find_site(seq!['@'] + k, 0, false, None) == Some((true, 0int, (k.len() + 1) as int)),
{
    let t = seq!['@'] + k;
    assert forall|i: int| 1 <= i < t.len() implies is_name_char(#[trigger] t[i]) by {
        assert(t[i] == k[i - 1]);
    }
    lemma_name_end_all(t, 1);
    assert(is_name_char(t[1]));
    assert(t[1] != '(');
}

/// A reference to a name that has no binding expands to nothing; the variables stay.
pub proof fn law_missing_is_empty(k: Seq<char>, vars: Map<Seq<char>, Seq<char>>, oo: Seq<Seq<Option<Seq<char>>>>)
    requires
        k.len() > 0,
        forall|i: int| 0 <= i < k.len() ==> is_name_char(#[trigger] k[i]),
        !vars.contains_key(k),
    ensures
        expand(seq!['@'] + k, vars, oo) == (Some(Seq::<char>::empty()), vars),
{
    let t = seq!['@'] + k;
    lemma_reference_site(k);
    assert(t.subrange(1, t.len() as int) =~= k);
    let next = t.subrange(0, 0) + value_of(vars, k) + t.subrange(t.len() as int, t.len() as int);
    assert(next =~= Seq::<char>::empty());
    assert(rewrite(t, vars, outs_at(oo, 0)) == Some((next, vars)));
    assert(find_site(next, 0, false, None) is None);
    assert(rewrite(next, vars, outs_at(oo, 1)) is None);
    assert(expansion(next, vars, oo, 1, (REWRITE_LIMIT - 1) as nat) == (Some(next), vars));
}

proof fn lemma_self_reference(k: Seq<char>, vars: Map<Seq<char>, Seq<char>>, oo: Seq<Seq<Option<Seq<char>>>>, j: int, fuel: nat)
    requires
        k.len() > 0,
        forall|i: int| 0 <= i < k.len() ==> is_name_char(#[trigger] k[i]),
        vars.contains_key(k),
        vars[k] == seq!['@'] + k,
    ensures
        expansion(seq!['@'] + k, vars, oo, j, fuel) == (None::<Seq<char>>, vars),
    decreases fuel,
{
    let t = seq!['@'] + k;
    lemma_reference_site(k);
    assert(t.subrange(1, t.len() as int) =~= k);
    assert(t.subrange(0, 0) + value_of(vars, k) + t.subrange(t.len() as int, t.len() as int) =~= t);
    if fuel > 0 {
        lemma_self_reference(k, vars, oo, j + 1, (fuel - 1) as nat);
    }
}

/// A name bound to a reference to itself makes expansion of that reference a runaway.
pub proof fn law_self_reference_runs_away(k: Seq<char>, vars: Map<Seq<char>, Seq<char>>, oo: Seq<Seq<Option<Seq<char>>>>)
    requires
        k.len() > 0,
        forall|i: int| 0 <= i < k.len() ==> is_name_char(#[trigger] k[i]),
        vars.contains_key(k),
        vars[k] == seq!['@'] + k,
    ensures
        expand(seq!['@'] + k, vars, oo) == (None::<Seq<char>>, vars),
{
    lemma_self_reference(k, vars, oo, 0, REWRITE_LIMIT as nat);
}

} // verus!
