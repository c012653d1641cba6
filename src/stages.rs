//! The built-in pipeline commands, each a function of the state's words and its arguments.

use vstd::prelude::*;
use crate::chars::to_chars;
use crate::scan::{slice_chars, tokenize, tokens, views};
use crate::vars::same_chars;
use crate::words::{
    decimal, join, join_words, number_of, parse_number, sort_words, sorted_words, to_decimal,
};

verus! {

/// The words of `ins` that are (`keep`) or are not (`!keep`) among `args`.
pub open spec fn select(ins: Seq<Seq<char>>, args: Seq<Seq<char>>, keep: bool) -> Seq<Seq<char>>
    decreases ins.len(),
{
    if ins.len() == 0 {
        seq![]
    } else if args.contains(ins.last()) == keep {
        select(ins.drop_last(), args, keep).push(ins.last())
    } else {
        select(ins.drop_last(), args, keep)
    }
}

/// Each word within single quotes.
pub open spec fn quote_each(ins: Seq<Seq<char>>) -> Seq<Seq<char>>
    decreases ins.len(),
{
    if ins.len() == 0 {
        seq![]
    } else {
        quote_each(ins.drop_last()).push(seq!['\''] + ins.last() + seq!['\''])
    }
}

/// A word without the double quotes around it, if it has them.
pub open spec fn unwrap_double(t: Seq<char>) -> Seq<char> {
    if t.len() >= 2 && t[0] == '"' && t[t.len() - 1] == '"' {
        t.subrange(1, t.len() - 1)
    } else {
        t
    }
}

/// Each word without the double quotes around it.
pub open spec fn unquote_each(ins: Seq<Seq<char>>) -> Seq<Seq<char>>
    decreases ins.len(),
{
    if ins.len() == 0 {
        seq![]
    } else {
        unquote_each(ins.drop_last()).push(unwrap_double(ins.last()))
    }
}

/// `n` dashes.
pub open spec fn dashes(n: nat) -> Seq<char> {
    Seq::new(n, |i: int| '-')
}

/// Each word with every character made a dash.
pub open spec fn dash_each(ins: Seq<Seq<char>>) -> Seq<Seq<char>>
    decreases ins.len(),
{
    if ins.len() == 0 {
        seq![]
    } else {
        dash_each(ins.drop_last()).push(dashes(ins.last().len()))
    }
}

/// `x` joined to each argument in turn: before it (`after`) or behind it.
pub open spec fn joined_to(x: Seq<char>, args: Seq<Seq<char>>, after: bool) -> Seq<Seq<char>>
    decreases args.len(),
{
    if args.len() == 0 {
        seq![]
    } else {
        joined_to(x, args.drop_last(), after).push(
            if after { x + args.last() } else { args.last() + x },
        )
    }
}

/// Each character as a word of its own.
pub open spec fn singles(t: Seq<char>) -> Seq<Seq<char>>
    decreases t.len(),
{
    if t.len() == 0 {
        seq![]
    } else {
        singles(t.drop_last()).push(seq![t.last()])
    }
}

/// For each word of `ins` in turn, and each argument in turn: the word followed by the
/// argument (`after`) or the argument followed by the word.
pub open spec fn cross(ins: Seq<Seq<char>>, args: Seq<Seq<char>>, after: bool) -> Seq<Seq<char>>
    decreases ins.len(),
{
    if ins.len() == 0 {
        seq![]
    } else {
        cross(ins.drop_last(), args, after) + joined_to(ins.last(), args, after)
    }
}

/// Where an `index` argument points among `n` words: `None` when it is no number,
/// `Some(None)` when it points outside them. A positive number counts from one, a
/// negative one from the end, and zero stands for the first word.
pub open spec fn index_target(n: nat, arg: Seq<char>) -> Option<Option<int>> {
    let flip = arg.len() > 0 && arg[0] == '-';
    let digits = if flip { arg.drop_first() } else { arg };
    match number_of(digits) {
        None => None,
        Some(k) => {
            let at: int = if flip {
                if n >= k { n - k } else { -1 }
            } else if k == 0 {
                0
            } else {
                k - 1
            };
            if 0 <= at < n { Some(Some(at)) } else { Some(None) }
        },
    }
}

/// The words that the `index` arguments point at, in the order of the arguments.
pub open spec fn picks(ins: Seq<Seq<char>>, args: Seq<Seq<char>>) -> Option<Seq<Seq<char>>>
    decreases args.len(),
{
    if args.len() == 0 {
        Some(seq![])
    } else {
        match (picks(ins, args.drop_last()), index_target(ins.len(), args.last())) {
            (Some(p), Some(Some(at))) => Some(p.push(ins[at])),
            (Some(p), Some(None)) => Some(p),
            _ => None,
        }
    }
}

/// The non-empty pieces of `t` between the occurrences of `sep`, from index `i` on, where
/// the current piece started at `start`.
pub open spec fn split_from(t: Seq<char>, sep: Seq<char>, start: int, i: int) -> Seq<Seq<char>>
    decreases t.len() - i,
{
    if sep.len() == 0 || i < start || i + sep.len() > t.len() || start < 0 {
        if 0 <= start < t.len() {
            seq![t.subrange(start, t.len() as int)]
        } else {
            seq![]
        }
    } else if t.subrange(i, i + sep.len()) == sep {
        let rest = split_from(t, sep, i + sep.len(), i + sep.len());
        if start < i {
            seq![t.subrange(start, i)] + rest
        } else {
            rest
        }
    } else {
        split_from(t, sep, start, i + 1)
    }
}

/// The non-empty pieces of `t` around `sep`; an empty `sep` parts every character.
pub open spec fn split_word(t: Seq<char>, sep: Seq<char>) -> Seq<Seq<char>> {
    if sep.len() == 0 {
        singles(t)
    } else {
        split_from(t, sep, 0, 0)
    }
}

/// Every word split on `sep`, in order.
pub open spec fn split_words(ts: Seq<Seq<char>>, sep: Seq<char>) -> Seq<Seq<char>>
    decreases ts.len(),
{
    if ts.len() == 0 {
        seq![]
    } else {
        split_words(ts.drop_last(), sep) + split_word(ts.last(), sep)
    }
}

/// The words split on each separator in turn.
pub open spec fn split_all(ts: Seq<Seq<char>>, seps: Seq<Seq<char>>) -> Seq<Seq<char>>
    decreases seps.len(),
{
    if seps.len() == 0 {
        ts
    } else {
        split_words(split_all(ts, seps.drop_last()), seps.last())
    }
}

/// The words that are not empty.
pub open spec fn non_empty(ts: Seq<Seq<char>>) -> Seq<Seq<char>>
    decreases ts.len(),
{
    if ts.len() == 0 {
        seq![]
    } else if ts.last().len() == 0 {
        non_empty(ts.drop_last())
    } else {
        non_empty(ts.drop_last()).push(ts.last())
    }
}

/// A count argument: the first argument read as a number, or `default` without one.
pub open spec fn count_arg(args: Seq<Seq<char>>, at: int, default: nat) -> Option<nat> {
    if at < args.len() {
        number_of(args[at])
    } else {
        Some(default)
    }
}

pub open spec fn spaced(ts: Seq<Seq<char>>) -> Seq<char> {
    join(ts, seq![' '])
}

/// The new state that the command `c` with arguments `args` makes of `state`, or `None`
/// when it fails. `def`, `stop` and `shell` are not handled here.
pub open spec fn command_result(c: Seq<char>, args: Seq<Seq<char>>, state: Seq<char>) -> Option<Seq<char>> {
    let ins = tokens(state);
    let n = ins.len();
    if c == "noop"@ {
        Some(spaced(ins))
    } else if c == "concat"@ {
        Some(join(ins, seq![]))
    } else if c == "count"@ {
        Some(decimal(n))
    } else if c == "include"@ {
        Some(spaced(select(ins, args, true)))
    } else if c == "exclude"@ {
        Some(spaced(select(ins, args, false)))
    } else if c == "quote"@ {
        Some(spaced(quote_each(ins)))
    } else if c == "unquote"@ {
        Some(spaced(unquote_each(ins)))
    } else if c == "add"@ {
        Some(spaced(ins + args))
    } else if c == "sort"@ {
        Some(spaced(sorted_words(ins)))
    } else if c == "first"@ {
        if n > 0 { Some(ins[0]) } else { None }
    } else if c == "last"@ {
        if n > 0 { Some(ins[n - 1]) } else { None }
    } else if c == "drop"@ {
        match count_arg(args, 0, 1) {
            Some(k) => Some(spaced(if k < n { ins.skip(k as int) } else { seq![] })),
            None => None,
        }
    } else if c == "pop"@ {
        match count_arg(args, 0, 1) {
            Some(k) => Some(spaced(if k < n { ins.take(n - k) } else { seq![] })),
            None => None,
        }
    } else if c == "append"@ {
        Some(spaced(cross(ins, args, true)))
    } else if c == "prepend"@ {
        Some(spaced(cross(ins, args, false)))
    } else if c == "between"@ {
        match (count_arg(args, 0, 1), count_arg(args, 1, n)) {
            (Some(a), Some(b)) => {
                let from: int = if a > 0 { a - 1 } else { 0 };
                let to: int = if b < n { b as int } else { n as int };
                Some(spaced(if from < to { ins.subrange(from, to) } else { seq![] }))
            },
            _ => None,
        }
    } else if c == "index"@ {
        match picks(ins, args) {
            Some(p) => Some(spaced(p)),
            None => None,
        }
    } else if c == "has"@ {
        if exists|i: int| 0 <= i < n && args.contains(#[trigger] ins[i]) {
            Some(state)
        } else {
            Some(seq![])
        }
    } else if c == "split"@ {
        Some(spaced(non_empty(split_all(ins, args))))
    } else if c == "debug_dash"@ {
        Some(spaced(dash_each(ins)))
    } else if c == "filter"@ || c == "sift"@ || c == "replace"@ {
        Some(state)
    } else {
        None
    }
}


/// Whether `w` is among `ws`.
pub fn contains_word(ws: &Vec<Vec<char>>, w: &[char]) -> (r: bool)
    ensures
        r == views(ws@).contains(w@),
{
    let mut i: usize = 0;
    while i < ws.len()
        invariant
            i <= ws@.len(),
            forall|j: int| 0 <= j < i ==> views(ws@)[j] != w@,
        decreases ws@.len() - i,
    {
        if same_chars(&ws[i], w) {
            assert(views(ws@)[i as int] == w@);
            return true;
        }
        i += 1;
    }
    false
}

fn select_words(ins: &Vec<Vec<char>>, args: &Vec<Vec<char>>, keep: bool) -> (r: Vec<Vec<char>>)
    ensures
        views(r@) == select(views(ins@), views(args@), keep),
{
    let mut out: Vec<Vec<char>> = Vec::new();
    let mut i: usize = 0;
    while i < ins.len()
        invariant
            i <= ins@.len(),
            views(out@) == select(views(ins@).take(i as int), views(args@), keep),
        decreases ins@.len() - i,
    {
        let ghost before = views(out@);
        assert(views(ins@).take(i + 1).drop_last() =~= views(ins@).take(i as int));
        if contains_word(args, &ins[i]) == keep {
            out.push(copy_chars(&ins[i]));
            assert(views(out@) =~= before.push(ins@[i as int]@));
        }
        i += 1;
    }
    assert(views(ins@).take(i as int) =~= views(ins@));
    out
}

fn quote_words(ins: &Vec<Vec<char>>) -> (r: Vec<Vec<char>>)
    ensures
        views(r@) == quote_each(views(ins@)),
{
    let mut out: Vec<Vec<char>> = Vec::new();
    let mut i: usize = 0;
    while i < ins.len()
        invariant
            i <= ins@.len(),
            views(out@) == quote_each(views(ins@).take(i as int)),
        decreases ins@.len() - i,
    {
        let ghost before = views(out@);
        let mut w: Vec<char> = Vec::new();
        w.push('\'');
        let mut k: usize = 0;
        while k < ins[i].len()
            invariant
                i < ins@.len(),
                k <= ins@[i as int]@.len(),
                w@ == seq!['\''] + ins@[i as int]@.take(k as int),
            decreases ins@[i as int]@.len() - k,
        {
            w.push(ins[i][k]);
            k += 1;
            assert(w@ =~= seq!['\''] + ins@[i as int]@.take(k as int));
        }
        w.push('\'');
        assert(ins@[i as int]@.take(k as int) =~= ins@[i as int]@);
        assert(w@ =~= seq!['\''] + ins@[i as int]@ + seq!['\'']);
        out.push(w);
        assert(views(ins@).take(i + 1).drop_last() =~= views(ins@).take(i as int));
        assert(views(out@) =~= before.push(seq!['\''] + ins@[i as int]@ + seq!['\'']));
        i += 1;
    }
    assert(views(ins@).take(i as int) =~= views(ins@));
    out
}

fn unquote_words(ins: &Vec<Vec<char>>) -> (r: Vec<Vec<char>>)
    ensures
        views(r@) == unquote_each(views(ins@)),
{
    let mut out: Vec<Vec<char>> = Vec::new();
    let mut i: usize = 0;
    while i < ins.len()
        invariant
            i <= ins@.len(),
            views(out@) == unquote_each(views(ins@).take(i as int)),
        decreases ins@.len() - i,
    {
        let ghost before = views(out@);
        let t = &ins[i];
        let w = if t.len() >= 2 && t[0] == '"' && t[t.len() - 1] == '"' {
            slice_chars(t, 1, t.len() - 1)
        } else {
            copy_chars(t)
        };
        out.push(w);
        assert(views(ins@).take(i + 1).drop_last() =~= views(ins@).take(i as int));
        assert(views(out@) =~= before.push(unwrap_double(ins@[i as int]@)));
        i += 1;
    }
    assert(views(ins@).take(i as int) =~= views(ins@));
    out
}

fn dash_words(ins: &Vec<Vec<char>>) -> (r: Vec<Vec<char>>)
    ensures
        views(r@) == dash_each(views(ins@)),
{
    let mut out: Vec<Vec<char>> = Vec::new();
    let mut i: usize = 0;
    while i < ins.len()
        invariant
            i <= ins@.len(),
            views(out@) == dash_each(views(ins@).take(i as int)),
        decreases ins@.len() - i,
    {
        let ghost before = views(out@);
        let mut w: Vec<char> = Vec::new();
        let mut k: usize = 0;
        while k < ins[i].len()
            invariant
                i < ins@.len(),
                k <= ins@[i as int]@.len(),
                w@ == Seq::new(k as nat, |j: int| '-'),
            decreases ins@[i as int]@.len() - k,
        {
            w.push('-');
            k += 1;
            assert(w@ =~= Seq::new(k as nat, |j: int| '-'));
        }
        out.push(w);
        assert(views(ins@).take(i + 1).drop_last() =~= views(ins@).take(i as int));
        assert(w@ =~= dashes(ins@[i as int]@.len()));
        assert(views(out@) =~= before.push(dashes(ins@[i as int]@.len())));
        i += 1;
    }
    assert(views(ins@).take(i as int) =~= views(ins@));
    out
}

fn concat_chars(a: &[char], b: &[char]) -> (r: Vec<char>)
    ensures
        r@ == a@ + b@,
{
    let mut v = slice_chars(a, 0, a.len());
    let mut k: usize = 0;
    while k < b.len()
        invariant
            k <= b@.len(),
            v@ == a@ + b@.take(k as int),
        decreases b@.len() - k,
    {
        v.push(b[k]);
        k += 1;
        assert(v@ =~= a@ + b@.take(k as int));
    }
    assert(a@.subrange(0, a@.len() as int) =~= a@);
    assert(b@.take(k as int) =~= b@);
    v
}

fn cross_words(ins: &Vec<Vec<char>>, args: &Vec<Vec<char>>, after: bool) -> (r: Vec<Vec<char>>)
    ensures
        views(r@) == cross(views(ins@), views(args@), after),
{
    let mut out: Vec<Vec<char>> = Vec::new();
    let mut i: usize = 0;
    while i < ins.len()
        invariant
            i <= ins@.len(),
            views(out@) == cross(views(ins@).take(i as int), views(args@), after),
        decreases ins@.len() - i,
    {
        let ghost before = views(out@);
        let ghost x = ins@[i as int]@;
        let mut j: usize = 0;
        while j < args.len()
            invariant
                i < ins@.len(),
                x == ins@[i as int]@,
                j <= args@.len(),
                views(out@) == before + joined_to(x, views(args@).take(j as int), after),
            decreases args@.len() - j,
        {
            let ghost mid = views(out@);
            let w = if after { concat_chars(&ins[i], &args[j]) } else { concat_chars(&args[j], &ins[i]) };
            out.push(w);
            assert(views(args@).take(j + 1).drop_last() =~= views(args@).take(j as int));
            assert(views(out@) =~= mid.push(w@));
            assert(views(out@) =~= before + joined_to(x, views(args@).take(j + 1), after));
            j += 1;
        }
        proof {
            let t = views(ins@).take(i + 1);
            assert(t.drop_last() =~= views(ins@).take(i as int));
            assert(t.last() == x);
            assert(views(args@).take(j as int) =~= views(args@));
        }
        i += 1;
    }
    assert(views(ins@).take(i as int) =~= views(ins@));
    out
}

fn pick_words(ins: &Vec<Vec<char>>, args: &Vec<Vec<char>>) -> (r: Option<Vec<Vec<char>>>)
    ensures
        r.is_some() == picks(views(ins@), views(args@)).is_some(),
        r.is_some() ==> views(r.unwrap()@) == picks(views(ins@), views(args@)).unwrap(),
{
    let mut out: Vec<Vec<char>> = Vec::new();
    let mut j: usize = 0;
    while j < args.len()
        invariant
            j <= args@.len(),
            picks(views(ins@), views(args@).take(j as int)) == Some(views(out@)),
        decreases args@.len() - j,
    {
        proof {
            let t = views(args@).take(j + 1);
            assert(t.drop_last() =~= views(args@).take(j as int));
        }
        let a = &args[j];
        let flip = a.len() > 0 && a[0] == '-';
        let digits = if flip { slice_chars(a, 1, a.len()) } else { slice_chars(a, 0, a.len()) };
        assert(digits@ =~= (if flip { a@.drop_first() } else { a@ }));
        let k = match parse_number(&digits) {
            Some(k) => k,
            None => {
                proof {
                    let mut m = j + 1;
                    assert(picks(views(ins@), views(args@).take(j + 1)).is_none());
                    lemma_picks_fail(views(ins@), views(args@), j + 1);
                    assert(views(args@).take(args@.len() as int) =~= views(args@));
                }
                return None;
            },
        };
        let n = ins.len();
        let at: Option<usize> = if flip {
            if n >= k { Some(n - k) } else { None }
        } else if k == 0 {
            Some(0)
        } else {
            Some(k - 1)
        };
        match at {
            Some(at) => {
                if at < n {
                    let ghost before = views(out@);
                    out.push(copy_chars(&ins[at]));
                    assert(views(out@) =~= before.push(views(ins@)[at as int]));
                }
            },
            None => {},
        }
        j += 1;
    }
    assert(views(args@).take(j as int) =~= views(args@));
    Some(out)
}

proof fn lemma_picks_fail(ins: Seq<Seq<char>>, args: Seq<Seq<char>>, j: int)
    requires
        0 <= j <= args.len(),
        picks(ins, args.take(j)).is_none(),
    ensures
        picks(ins, args.take(args.len() as int)).is_none(),
    decreases args.len() - j,
{
    if j < args.len() {
        let t = args.take(j + 1);
        assert(t.drop_last() =~= args.take(j));
        lemma_picks_fail(ins, args, j + 1);
    }
}

fn split_one(t: &[char], sep: &[char]) -> (r: Vec<Vec<char>>)
    ensures
        views(r@) == split_word(t@, sep@),
{
    let mut out: Vec<Vec<char>> = Vec::new();
    if sep.len() == 0 {
        let mut i: usize = 0;
        while i < t.len()
            invariant
                i <= t@.len(),
                sep@.len() == 0,
                views(out@) == singles(t@.take(i as int)),
            decreases t@.len() - i,
        {
            let ghost before = views(out@);
            let mut w: Vec<char> = Vec::new();
            w.push(t[i]);
            out.push(w);
            assert(t@.take(i + 1).drop_last() =~= t@.take(i as int));
            assert(w@ =~= seq![t@[i as int]]);
            assert(views(out@) =~= before.push(seq![t@[i as int]]));
            i += 1;
        }
        assert(t@.take(i as int) =~= t@);
        return out;
    }
    let mut start: usize = 0;
    let mut i: usize = 0;
    while sep.len() <= t.len() - i
        invariant
            sep@.len() > 0,
            start <= i,
            i <= t@.len(),
            views(out@) + split_from(t@, sep@, start as int, i as int) == split_word(t@, sep@),
        decreases t@.len() - i,
    {
        let mut k: usize = 0;
        while k < sep.len() && t[i + k] == sep[k]
            invariant
                i + sep@.len() <= t@.len(),
                t@.len() <= usize::MAX,
                k <= sep@.len(),
                forall|m: int| 0 <= m < k ==> t@[i + m] == sep@[m],
            decreases sep@.len() - k,
        {
            k += 1;
        }
        if k == sep.len() {
            assert(t@.subrange(i as int, i + sep@.len()) =~= sep@);
            let ghost before = views(out@);
            let ghost rest = split_from(t@, sep@, i + sep@.len(), i + sep@.len());
            if start < i {
                let w = slice_chars(t, start, i);
                out.push(w);
                assert(views(out@) + rest =~= before + (seq![t@.subrange(start as int, i as int)] + rest));
            }
            i = i + sep.len();
            start = i;
        } else {
            assert(t@.subrange(i as int, i + sep@.len())[k as int] != sep@[k as int]);
            i += 1;
        }
    }
    if start < t.len() {
        let w = slice_chars(t, start, t.len());
        out.push(w);
    }
    assert(views(out@) =~= split_word(t@, sep@));
    out
}

fn split_each(ts: &Vec<Vec<char>>, sep: &[char]) -> (r: Vec<Vec<char>>)
    ensures
        views(r@) == split_words(views(ts@), sep@),
{
    let mut out: Vec<Vec<char>> = Vec::new();
    let mut i: usize = 0;
    while i < ts.len()
        invariant
            i <= ts@.len(),
            views(out@) == split_words(views(ts@).take(i as int), sep@),
        decreases ts@.len() - i,
    {
        let ghost before = views(out@);
        let mut parts = split_one(&ts[i], sep);
        let ghost p = views(parts@);
        out.append(&mut parts);
        assert(views(out@) =~= before + p);
        assert(views(ts@).take(i + 1).drop_last() =~= views(ts@).take(i as int));
        i += 1;
    }
    assert(views(ts@).take(i as int) =~= views(ts@));
    out
}

fn keep_non_empty(ts: &Vec<Vec<char>>) -> (r: Vec<Vec<char>>)
    ensures
        views(r@) == non_empty(views(ts@)),
{
    let mut out: Vec<Vec<char>> = Vec::new();
    let mut i: usize = 0;
    while i < ts.len()
        invariant
            i <= ts@.len(),
            views(out@) == non_empty(views(ts@).take(i as int)),
        decreases ts@.len() - i,
    {
        let ghost before = views(out@);
        assert(views(ts@).take(i + 1).drop_last() =~= views(ts@).take(i as int));
        if ts[i].len() > 0 {
            out.push(copy_chars(&ts[i]));
            assert(views(out@) =~= before.push(ts@[i as int]@));
        }
        i += 1;
    }
    assert(views(ts@).take(i as int) =~= views(ts@));
    out
}

fn split_by_all(ins: &Vec<Vec<char>>, seps: &Vec<Vec<char>>) -> (r: Vec<Vec<char>>)
    ensures
        views(r@) == split_all(views(ins@), views(seps@)),
{
    let mut cur: Vec<Vec<char>> = slice_words(ins, 0, ins.len());
    assert(views(cur@) =~= views(ins@));
    let mut j: usize = 0;
    while j < seps.len()
        invariant
            j <= seps@.len(),
            views(cur@) == split_all(views(ins@), views(seps@).take(j as int)),
        decreases seps@.len() - j,
    {
        cur = split_each(&cur, &seps[j]);
        assert(views(seps@).take(j + 1).drop_last() =~= views(seps@).take(j as int));
        j += 1;
    }
    assert(views(seps@).take(j as int) =~= views(seps@));
    cur
}

/// Whether `c` spells the word `w`.
pub fn is_word(c: &[char], w: &str) -> (r: bool)
    ensures
        r == (c@ == w@),
{
    let v = to_chars(w);
    same_chars(c, &v)
}

fn spaced_words(ts: &Vec<Vec<char>>) -> (r: Vec<char>)
    ensures
        r@ == spaced(views(ts@)),
{
    let mut sep: Vec<char> = Vec::new();
    sep.push(' ');
    assert(sep@ =~= seq![' ']);
    join_words(ts, &sep)
}

fn count_argument(args: &Vec<Vec<char>>, at: usize, default: usize) -> (r: Option<usize>)
    ensures
        r.is_some() == count_arg(views(args@), at as int, default as nat).is_some(),
        r.is_some() ==> r.unwrap() as nat == count_arg(views(args@), at as int, default as nat).unwrap(),
{
    if at < args.len() {
        parse_number(&args[at])
    } else {
        Some(default)
    }
}

/// Runs the command `c` with arguments `args` on `state`; `None` when it fails.
pub fn run_command(c: &[char], args: &Vec<Vec<char>>, state: &[char]) -> (r: Option<Vec<char>>)
    ensures
        r.is_some() == command_result(c@, views(args@), state@).is_some(),
        r.is_some() ==> r.unwrap()@ == command_result(c@, views(args@), state@).unwrap(),
{
    let ins = tokenize(state);
    let n = ins.len();
    if is_word(c, "noop") {
        Some(spaced_words(&ins))
    } else if is_word(c, "concat") {
        let empty: Vec<char> = Vec::new();
        assert(empty@ =~= seq![]);
        Some(join_words(&ins, &empty))
    } else if is_word(c, "count") {
        Some(to_decimal(n))
    } else if is_word(c, "include") {
        Some(spaced_words(&select_words(&ins, args, true)))
    } else if is_word(c, "exclude") {
        Some(spaced_words(&select_words(&ins, args, false)))
    } else if is_word(c, "quote") {
        Some(spaced_words(&quote_words(&ins)))
    } else if is_word(c, "unquote") {
        Some(spaced_words(&unquote_words(&ins)))
    } else if is_word(c, "add") {
        let mut all = slice_words(&ins, 0, n);
        let mut more = slice_words(args, 0, args.len());
        assert(views(all@) =~= views(ins@));
        assert(views(more@) =~= views(args@));
        all.append(&mut more);
        assert(views(all@) =~= views(ins@) + views(args@));
        Some(spaced_words(&all))
    } else if is_word(c, "sort") {
        Some(spaced_words(&sort_words(&ins)))
    } else if is_word(c, "first") {
        if n > 0 { Some(copy_chars(&ins[0])) } else { None }
    } else if is_word(c, "last") {
        if n > 0 { Some(copy_chars(&ins[n - 1])) } else { None }
    } else if is_word(c, "drop") {
        match count_argument(args, 0, 1) {
            Some(k) => {
                let kept = if k < n { slice_words(&ins, k, n) } else { Vec::new() };
                assert(views(kept@) =~= (if k < n { views(ins@).skip(k as int) } else { seq![] }));
                Some(spaced_words(&kept))
            },
            None => None,
        }
    } else if is_word(c, "pop") {
        match count_argument(args, 0, 1) {
            Some(k) => {
                let kept = if k < n { slice_words(&ins, 0, n - k) } else { Vec::new() };
                assert(views(kept@) =~= (if k < n { views(ins@).take(n - k) } else { seq![] }));
                Some(spaced_words(&kept))
            },
            None => None,
        }
    } else if is_word(c, "append") {
        Some(spaced_words(&cross_words(&ins, args, true)))
    } else if is_word(c, "prepend") {
        Some(spaced_words(&cross_words(&ins, args, false)))
    } else if is_word(c, "between") {
        match (count_argument(args, 0, 1), count_argument(args, 1, n)) {
            (Some(a), Some(b)) => {
                let from = if a > 0 { a - 1 } else { 0 };
                let to = if b < n { b } else { n };
                let kept = if from < to { slice_words(&ins, from, to) } else { Vec::new() };
                assert(views(kept@) =~= (if from < to { views(ins@).subrange(from as int, to as int) } else { seq![] }));
                Some(spaced_words(&kept))
            },
            _ => None,
        }
    } else if is_word(c, "index") {
        match pick_words(&ins, args) {
            Some(p) => Some(spaced_words(&p)),
            None => None,
        }
    } else if is_word(c, "has") {
        if any_among(&ins, args) {
            Some(copy_chars(state))
        } else {
            Some(Vec::new())
        }
    } else if is_word(c, "split") {
        Some(spaced_words(&keep_non_empty(&split_by_all(&ins, args))))
    } else if is_word(c, "debug_dash") {
        Some(spaced_words(&dash_words(&ins)))
    } else if is_word(c, "filter") || is_word(c, "sift") || is_word(c, "replace") {
        Some(copy_chars(state))
    } else {
        None
    }
}

/// Whether some word of `ins` is among `args`.
fn any_among(ins: &Vec<Vec<char>>, args: &Vec<Vec<char>>) -> (r: bool)
    ensures
        r == exists|i: int| 0 <= i < ins@.len() && views(args@).contains(#[trigger] views(ins@)[i]),
{
    let mut i: usize = 0;
    while i < ins.len()
        invariant
            i <= ins@.len(),
            forall|j: int| 0 <= j < i ==> !views(args@).contains(#[trigger] views(ins@)[j]),
        decreases ins@.len() - i,
    {
        if contains_word(args, &ins[i]) {
            assert(views(args@).contains(views(ins@)[i as int]));
            return true;
        }
        i += 1;
    }
    false
}

/// A copy of the characters.
pub fn copy_chars(s: &[char]) -> (r: Vec<char>)
    ensures
        r@ == s@,
{
    let r = slice_chars(s, 0, s.len());
    assert(s@.subrange(0, s@.len() as int) =~= s@);
    r
}

/// The words from `a` up to `b`.
fn slice_words(ts: &Vec<Vec<char>>, a: usize, b: usize) -> (r: Vec<Vec<char>>)
    requires
        a <= b <= ts@.len(),
    ensures
        views(r@) == views(ts@).subrange(a as int, b as int),
{
    let mut out: Vec<Vec<char>> = Vec::new();
    let mut i = a;
    while i < b
        invariant
            a <= i <= b <= ts@.len(),
            views(out@) == views(ts@).subrange(a as int, i as int),
        decreases b - i,
    {
        let ghost before = views(out@);
        out.push(copy_chars(&ts[i]));
        assert(views(out@) =~= before.push(ts@[i as int]@));
        assert(views(out@) =~= views(ts@).subrange(a as int, i + 1));
        i += 1;
    }
    out
}

} // verus!
