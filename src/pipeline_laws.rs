//! Laws of the pipeline commands: re-reading joined words, sorting, quoting, definitions.

use vstd::prelude::*;
use crate::chars::is_white;
use crate::pipeline::{define_all, run_stages, stage_parts};
use crate::scan::{find_from, lemma_run_end, lemma_token_end, run_end, token_end, tokens, tokens_from, unwrap_single};
use crate::stages::{command_result, quote_each, spaced, unquote_each, unwrap_double};
use crate::words::{decimal, insert_sorted, join, lex_le, sorted_words, trim};

verus! {

/// A string without quote characters.
pub open spec fn plain(s: Seq<char>) -> bool {
    forall|k: int| 0 <= k < s.len() ==> s[k] != '\'' && s[k] != '"'
}

/// A word that tokenization reads back as a single token: not empty, without white space,
/// and closed by the quote it opens with, if it opens with one.
pub open spec fn whole_word(w: Seq<char>) -> bool {
    &&& w.len() > 0
    &&& forall|k: int| 0 <= k < w.len() ==> !is_white(#[trigger] w[k])
    &&& (w[0] == '\'' || w[0] == '"') ==> w.len() >= 2 && find_from(w, 1, w[0]) == w.len() - 1
}

/// A non-empty word without white space or quote characters.
pub open spec fn plain_word(w: Seq<char>) -> bool {
    &&& w.len() > 0
    &&& forall|k: int| 0 <= k < w.len() ==> !is_white(#[trigger] w[k]) && w[k] != '\'' && w[k] != '"'
}

proof fn lemma_shift_find(p: Seq<char>, b: Seq<char>, j: int, c: char)
    requires
        0 <= j <= b.len(),
    ensures
        find_from(p + b, p.len() + j, c) == p.len() + find_from(b, j, c),
    decreases b.len() - j,
{
    if j < b.len() {
        assert((p + b)[p.len() + j] == b[j]);
        lemma_shift_find(p, b, j + 1, c);
    }
}

proof fn lemma_shift_run(p: Seq<char>, b: Seq<char>, j: int)
    requires
        0 <= j <= b.len(),
    ensures
        run_end(p + b, p.len() + j) == p.len() + run_end(b, j),
    decreases b.len() - j,
{
    if j < b.len() {
        assert((p + b)[p.len() + j] == b[j]);
        lemma_shift_run(p, b, j + 1);
    }
}

proof fn lemma_shift_tokens(p: Seq<char>, b: Seq<char>, j: int)
    requires
        0 <= j <= b.len(),
    ensures
        tokens_from(p + b, p.len() + j) == tokens_from(b, j),
    decreases b.len() - j,
{
    let s = p + b;
    if j < b.len() {
        assert(s[p.len() + j] == b[j]);
        if is_white(b[j]) {
            lemma_shift_tokens(p, b, j + 1);
        } else {
            lemma_shift_find(p, b, j + 1, b[j]);
            lemma_shift_run(p, b, j);
            lemma_token_end(b, j);
            let e = token_end(b, j);
            assert(token_end(s, p.len() + j) == p.len() + e);
            assert(s.subrange(p.len() + j, p.len() + e) =~= b.subrange(j, e));
            lemma_shift_tokens(p, b, e);
        }
    }
}

proof fn lemma_prefix_find(w: Seq<char>, b: Seq<char>, i: int, c: char)
    requires
        0 <= i <= w.len(),
        find_from(w, i, c) < w.len(),
    ensures
        find_from(w + b, i, c) == find_from(w, i, c),
    decreases w.len() - i,
{
    if i < w.len() && w[i] != c {
        lemma_prefix_find(w, b, i + 1, c);
    }
}

proof fn lemma_prefix_run(w: Seq<char>, b: Seq<char>, i: int)
    requires
        0 <= i <= w.len(),
        forall|k: int| i <= k < w.len() ==> !is_white(#[trigger] w[k]),
        b.len() == 0 || is_white(b[0]),
    ensures
        run_end(w + b, i) == w.len(),
    decreases w.len() - i,
{
    if i < w.len() {
        lemma_prefix_run(w, b, i + 1);
    } else if b.len() > 0 {
        assert((w + b)[i] == b[0]);
    }
}

proof fn lemma_first_token(w: Seq<char>, b: Seq<char>)
    requires
        whole_word(w),
        b.len() == 0 || is_white(b[0]),
    ensures
        tokens_from(w + b, 0) == seq![unwrap_single(w)] + tokens_from(w + b, w.len() as int),
{
    let s = w + b;
    assert(s[0] == w[0]);
    if w[0] == '\'' || w[0] == '"' {
        lemma_prefix_find(w, b, 1, w[0]);
    } else {
        lemma_prefix_run(w, b, 0);
    }
    assert(token_end(s, 0) == w.len());
    assert(s.subrange(0, w.len() as int) =~= w);
}

proof fn lemma_join_front(ws: Seq<Seq<char>>, sep: Seq<char>)
    requires
        ws.len() >= 2,
    ensures
        join(ws, sep) == ws[0] + sep + join(ws.drop_first(), sep),
    decreases ws.len(),
{
    if ws.len() == 2 {
        assert(ws.drop_last().len() == 1);
        assert(ws.drop_first().len() == 1);
        assert(ws.drop_last()[0] == ws[0]);
        assert(ws.drop_first()[0] == ws[1]);
        assert(ws.last() == ws[1]);
        assert(join(ws.drop_last(), sep) == ws[0]);
        assert(join(ws.drop_first(), sep) == ws[1]);
        assert(join(ws, sep) == join(ws.drop_last(), sep) + sep + ws.last());
    } else {
        let d = ws.drop_first();
        assert(join(d, sep) == join(d.drop_last(), sep) + sep + d.last());
        assert(join(ws, sep) == join(ws.drop_last(), sep) + sep + ws.last());
        lemma_join_front(ws.drop_last(), sep);
        assert(ws.drop_last().drop_first() =~= ws.drop_first().drop_last());
        assert(ws.drop_first().last() == ws.last());
        assert(join(ws, sep) =~= ws[0] + sep + join(ws.drop_first(), sep));
    }
}

/// Words that each read back as one token, joined by spaces, read back as those words.
pub proof fn lemma_reread(ws: Seq<Seq<char>>)
    requires
        forall|i: int| 0 <= i < ws.len() ==> whole_word(#[trigger] ws[i]),
    ensures
        tokens(spaced(ws)).len() == ws.len(),
        forall|i: int| 0 <= i < ws.len() ==> tokens(spaced(ws))[i] == unwrap_single(#[trigger] ws[i]),
    decreases ws.len(),
{
    if ws.len() == 1 {
        lemma_first_token(ws[0], seq![]);
        assert(ws[0] + Seq::<char>::empty() =~= ws[0]);
    } else if ws.len() >= 2 {
        let rest = ws.drop_first();
        lemma_reread(rest);
        lemma_join_front(ws, seq![' ']);
        let j = join(rest, seq![' ']);
        let r = seq![' '] + j;
        assert(spaced(ws) =~= ws[0] + r);
        lemma_first_token(ws[0], r);
        lemma_shift_tokens(ws[0], r, 0);
        assert(tokens_from(r, 0) == tokens_from(r, 1));
        lemma_shift_tokens(seq![' '], j, 0);
        assert forall|i: int| 0 <= i < ws.len() implies tokens(spaced(ws))[i] == unwrap_single(#[trigger] ws[i]) by {
            if i > 0 {
                assert(ws[i] == rest[i - 1]);
            }
        }
    }
}

proof fn lemma_plain_tokens(s: Seq<char>, i: int)
    requires
        plain(s),
        0 <= i <= s.len(),
    ensures
        forall|k: int| 0 <= k < tokens_from(s, i).len() ==> plain_word(#[trigger] tokens_from(s, i)[k]),
    decreases s.len() - i,
{
    if i < s.len() {
        if is_white(s[i]) {
            lemma_plain_tokens(s, i + 1);
            assert(tokens_from(s, i) == tokens_from(s, i + 1));
        } else {
            lemma_run_end(s, i);
            lemma_token_end(s, i);
            let e = token_end(s, i);
            let t = s.subrange(i, e);
            assert(unwrap_single(t) == t);
            lemma_plain_tokens(s, e);
            assert(plain_word(t));
            let all = tokens_from(s, i);
            assert(all == seq![t] + tokens_from(s, e));
            assert forall|k: int| 0 <= k < all.len() implies plain_word(#[trigger] all[k]) by {
                if k > 0 {
                    assert(all[k] == tokens_from(s, e)[k - 1]);
                }
            }
        }
    }
}

proof fn lemma_plain_word_whole(w: Seq<char>)
    requires
        plain_word(w),
    ensures
        whole_word(w),
        unwrap_single(w) == w,
{
}

/// Plain words joined by spaces read back as the same words.
proof fn lemma_reread_plain(ws: Seq<Seq<char>>)
    requires
        forall|i: int| 0 <= i < ws.len() ==> plain_word(#[trigger] ws[i]),
    ensures
        tokens(spaced(ws)) == ws,
{
    assert forall|i: int| 0 <= i < ws.len() implies whole_word(#[trigger] ws[i]) by {
        lemma_plain_word_whole(ws[i]);
    }
    lemma_reread(ws);
    assert forall|i: int| 0 <= i < ws.len() implies tokens(spaced(ws))[i] == ws[i] by {
        lemma_plain_word_whole(ws[i]);
    }
    assert(tokens(spaced(ws)) =~= ws);
}

proof fn lemma_lex_total(a: Seq<char>, b: Seq<char>)
    ensures
        lex_le(a, b) || lex_le(b, a),
    decreases a.len(),
{
    if a.len() > 0 && b.len() > 0 && a[0] == b[0] {
        lemma_lex_total(a.drop_first(), b.drop_first());
    }
}

proof fn lemma_lex_antisym(a: Seq<char>, b: Seq<char>)
    requires
        lex_le(a, b),
        lex_le(b, a),
    ensures
        a == b,
    decreases a.len(),
{
    if a.len() > 0 && b.len() > 0 {
        lemma_lex_antisym(a.drop_first(), b.drop_first());
        assert(a =~= seq![a[0]] + a.drop_first());
        assert(b =~= seq![b[0]] + b.drop_first());
    } else {
        assert(a.len() == 0 && b.len() == 0);
        assert(a =~= b);
    }
}

proof fn lemma_lex_trans(a: Seq<char>, b: Seq<char>, c: Seq<char>)
    requires
        lex_le(a, b),
        lex_le(b, c),
    ensures
        lex_le(a, c),
    decreases a.len(),
{
    if a.len() > 0 && b.len() > 0 && c.len() > 0 && a[0] == b[0] && b[0] == c[0] {
        lemma_lex_trans(a.drop_first(), b.drop_first(), c.drop_first());
    }
}

pub open spec fn is_sorted(t: Seq<Seq<char>>) -> bool {
    forall|i: int, j: int| 0 <= i < j < t.len() ==> lex_le(#[trigger] t[i], #[trigger] t[j])
}

proof fn lemma_insert_members(x: Seq<char>, t: Seq<Seq<char>>)
    ensures
        insert_sorted(x, t).len() == t.len() + 1,
        forall|k: int| 0 <= k < insert_sorted(x, t).len() ==> #[trigger] insert_sorted(x, t)[k] == x
            || t.contains(insert_sorted(x, t)[k]),
    decreases t.len(),
{
    if t.len() > 0 && !lex_le(x, t[0]) {
        let rest = t.drop_first();
        lemma_insert_members(x, rest);
        let r = insert_sorted(x, t);
        assert forall|k: int| 0 <= k < r.len() implies #[trigger] r[k] == x || t.contains(r[k]) by {
            if k == 0 {
                assert(t[0] == r[0]);
            } else {
                assert(r[k] == insert_sorted(x, rest)[k - 1]);
                if insert_sorted(x, rest)[k - 1] != x {
                    let m = choose|m: int| 0 <= m < rest.len() && rest[m] == r[k];
                    assert(t[m + 1] == r[k]);
                }
            }
        }
    } else if t.len() > 0 {
        let r = insert_sorted(x, t);
        assert forall|k: int| 0 <= k < r.len() implies #[trigger] r[k] == x || t.contains(r[k]) by {
            if k > 0 {
                assert(r[k] == t[k - 1]);
            }
        }
    }
}

proof fn lemma_insert_keeps_sorted(x: Seq<char>, t: Seq<Seq<char>>)
    requires
        is_sorted(t),
    ensures
        is_sorted(insert_sorted(x, t)),
    decreases t.len(),
{
    let r = insert_sorted(x, t);
    if t.len() == 0 {
    } else if lex_le(x, t[0]) {
        assert forall|i: int, j: int| 0 <= i < j < r.len() implies lex_le(#[trigger] r[i], #[trigger] r[j]) by {
            if i == 0 {
                if j > 1 {
                    lemma_lex_trans(x, t[0], t[j - 1]);
                }
            } else {
                assert(r[i] == t[i - 1] && r[j] == t[j - 1]);
            }
        }
    } else {
        let rest = t.drop_first();
        lemma_lex_total(x, t[0]);
        lemma_insert_keeps_sorted(x, rest);
        lemma_insert_members(x, rest);
        assert forall|i: int, j: int| 0 <= i < j < r.len() implies lex_le(#[trigger] r[i], #[trigger] r[j]) by {
            let ir = insert_sorted(x, rest);
            if i == 0 {
                assert(r[j] == ir[j - 1]);
                if ir[j - 1] != x {
                    let m = choose|m: int| 0 <= m < rest.len() && rest[m] == ir[j - 1];
                    assert(t[m + 1] == ir[j - 1]);
                }
            } else {
                assert(r[i] == ir[i - 1] && r[j] == ir[j - 1]);
            }
        }
    }
}

proof fn lemma_sorted_words_sorted(s: Seq<Seq<char>>)
    ensures
        is_sorted(sorted_words(s)),
        sorted_words(s).len() == s.len(),
        forall|k: int| 0 <= k < sorted_words(s).len() ==> s.contains(#[trigger] sorted_words(s)[k]),
    decreases s.len(),
{
    if s.len() > 0 {
        let t = sorted_words(s.drop_last());
        lemma_sorted_words_sorted(s.drop_last());
        lemma_insert_keeps_sorted(s.last(), t);
        lemma_insert_members(s.last(), t);
        let r = sorted_words(s);
        assert forall|k: int| 0 <= k < r.len() implies s.contains(#[trigger] r[k]) by {
            if r[k] == s.last() {
                assert(s[s.len() - 1] == r[k]);
            } else {
                let m = choose|m: int| 0 <= m < t.len() && t[m] == r[k];
                let m2 = choose|m2: int| 0 <= m2 < s.drop_last().len() && s.drop_last()[m2] == t[m];
                assert(s[m2] == r[k]);
            }
        }
    }
}

proof fn lemma_insert_last(x: Seq<char>, t: Seq<Seq<char>>)
    requires
        is_sorted(t),
        forall|k: int| 0 <= k < t.len() ==> lex_le(#[trigger] t[k], x),
    ensures
        insert_sorted(x, t) == t.push(x),
    decreases t.len(),
{
    if t.len() > 0 {
        if lex_le(x, t[0]) {
            assert forall|k: int| 0 <= k < t.len() implies #[trigger] t[k] == x by {
                lemma_lex_antisym(x, t[0]);
                if k > 0 {
                    lemma_lex_trans(x, t[0], t[k]);
                    lemma_lex_antisym(x, t[k]);
                }
            }
            assert(seq![x] + t =~= t.push(x));
        } else {
            let rest = t.drop_first();
            lemma_insert_last(x, rest);
            assert(seq![t[0]] + rest.push(x) =~= t.push(x));
        }
    }
}

proof fn lemma_sorted_fixed(s: Seq<Seq<char>>)
    requires
        is_sorted(s),
    ensures
        sorted_words(s) == s,
    decreases s.len(),
{
    if s.len() > 0 {
        let d = s.drop_last();
        lemma_sorted_fixed(d);
        lemma_insert_last(s.last(), d);
        assert(d.push(s.last()) =~= s);
    }
}

/// Sorting sorted words changes nothing.
pub proof fn law_sort_twice(s: Seq<Seq<char>>)
    ensures
        sorted_words(sorted_words(s)) == sorted_words(s),
{
    lemma_sorted_words_sorted(s);
    lemma_sorted_fixed(sorted_words(s));
}

proof fn lemma_names()
    ensures
        "noop"@ != "concat"@ && "noop"@ != "count"@ && "concat"@ != "count"@,
        "sort"@ != "noop"@ && "sort"@ != "concat"@ && "sort"@ != "count"@ && "sort"@ != "include"@
            && "sort"@ != "exclude"@ && "sort"@ != "quote"@ && "sort"@ != "unquote"@ && "sort"@ != "add"@,
        "quote"@ != "noop"@ && "quote"@ != "concat"@ && "quote"@ != "count"@ && "quote"@ != "include"@
            && "quote"@ != "exclude"@,
        "unquote"@ != "noop"@ && "unquote"@ != "concat"@ && "unquote"@ != "count"@ && "unquote"@ != "include"@
            && "unquote"@ != "exclude"@ && "unquote"@ != "quote"@,
        "def"@ != "shell"@ && "noop"@ != "shell"@ && "noop"@ != "def"@ && "noop"@ != "stop"@,
{
    reveal_strlit("noop");
    reveal_strlit("concat");
    reveal_strlit("count");
    reveal_strlit("include");
    reveal_strlit("exclude");
    reveal_strlit("quote");
    reveal_strlit("unquote");
    reveal_strlit("add");
    reveal_strlit("sort");
    reveal_strlit("def");
    reveal_strlit("shell");
    reveal_strlit("stop");
    assert("noop"@[0] != "concat"@[0]);
    assert("noop"@[0] != "count"@[0]);
    assert("concat"@[2] != "count"@[2]);
    assert("sort"@[0] != "noop"@[0]);
    assert("sort"@[0] != "concat"@[0]);
    assert("sort"@[0] != "count"@[0]);
    assert("sort"@.len() != "include"@.len());
    assert("sort"@.len() != "exclude"@.len());
    assert("sort"@.len() != "quote"@.len());
    assert("sort"@.len() != "unquote"@.len());
    assert("sort"@.len() != "add"@.len());
    assert("quote"@[0] != "noop"@[0]);
    assert("quote"@.len() != "concat"@.len());
    assert("quote"@[0] != "count"@[0]);
    assert("quote"@.len() != "include"@.len());
    assert("quote"@.len() != "exclude"@.len());
    assert("unquote"@.len() != "noop"@.len());
    assert("unquote"@[0] != "concat"@[0]);
    assert("unquote"@.len() != "count"@.len());
    assert("unquote"@[0] != "include"@[0]);
    assert("unquote"@[0] != "exclude"@[0]);
    assert("unquote"@.len() != "quote"@.len());
    assert("def"@.len() != "shell"@.len());
    assert("noop"@.len() != "shell"@.len());
    assert("noop"@.len() != "def"@.len());
    assert("noop"@[0] != "stop"@[0]);
}

/// On a state without quote characters, `sort` after `sort` gives what one `sort` gives.
pub proof fn law_sort_idempotent(x: Seq<char>, args: Seq<Seq<char>>)
    requires
        plain(x),
    ensures
        command_result("sort"@, args, x) is Some,
        command_result("sort"@, args, command_result("sort"@, args, x)->0) == command_result("sort"@, args, x),
{
    lemma_names();
    let t = tokens(x);
    lemma_plain_tokens(x, 0);
    lemma_sorted_words_sorted(t);
    let st = sorted_words(t);
    assert forall|i: int| 0 <= i < st.len() implies plain_word(#[trigger] st[i]) by {
        let m = choose|m: int| 0 <= m < t.len() && t[m] == st[i];
        assert(plain_word(t[m]));
    }
    lemma_reread_plain(st);
    law_sort_twice(t);
}

/// On a state without quote characters, `count` gives the number of words that `noop`
/// writes out.
pub proof fn law_count_is_noop_words(x: Seq<char>, args: Seq<Seq<char>>, noop_args: Seq<Seq<char>>)
    requires
        plain(x),
    ensures
        command_result("noop"@, noop_args, x) is Some,
        command_result("count"@, args, x) == Some(decimal(tokens(command_result("noop"@, noop_args, x)->0).len())),
{
    lemma_names();
    lemma_plain_tokens(x, 0);
    lemma_reread_plain(tokens(x));
}

proof fn lemma_quote_each(ws: Seq<Seq<char>>)
    ensures
        quote_each(ws).len() == ws.len(),
        forall|i: int| 0 <= i < ws.len() ==> #[trigger] quote_each(ws)[i] == seq!['\''] + ws[i] + seq!['\''],
    decreases ws.len(),
{
    if ws.len() > 0 {
        lemma_quote_each(ws.drop_last());
        assert forall|i: int| 0 <= i < ws.len() implies #[trigger] quote_each(ws)[i] == seq!['\''] + ws[i] + seq!['\''] by {
            if i < ws.len() - 1 {
                assert(ws.drop_last()[i] == ws[i]);
            }
        }
    }
}

proof fn lemma_unquote_plain(ws: Seq<Seq<char>>)
    requires
        forall|i: int| 0 <= i < ws.len() ==> plain_word(#[trigger] ws[i]),
    ensures
        unquote_each(ws) == ws,
    decreases ws.len(),
{
    if ws.len() > 0 {
        lemma_unquote_plain(ws.drop_last());
        assert(plain_word(ws.last()));
        assert(unwrap_double(ws.last()) == ws.last());
        assert(ws.drop_last().push(ws.last()) =~= ws);
    }
}

proof fn lemma_no_quote_find(w: Seq<char>, i: int)
    requires
        w.len() >= 2,
        w[w.len() - 1] == '\'',
        1 <= i <= w.len() - 1,
        forall|k: int| 1 <= k < w.len() - 1 ==> w[k] != '\'',
    ensures
        find_from(w, i, '\'') == w.len() - 1,
    decreases w.len() - i,
{
    if i < w.len() - 1 {
        lemma_no_quote_find(w, i + 1);
    }
}

/// On a state without quote characters, `quote` then `unquote` gives back the same words.
pub proof fn law_quote_unquote(x: Seq<char>, qargs: Seq<Seq<char>>, uargs: Seq<Seq<char>>)
    requires
        plain(x),
    ensures
        command_result("quote"@, qargs, x) is Some,
        command_result("unquote"@, uargs, command_result("quote"@, qargs, x)->0) is Some,
        tokens(command_result("unquote"@, uargs, command_result("quote"@, qargs, x)->0)->0) == tokens(x),
{
    lemma_names();
    let t = tokens(x);
    lemma_plain_tokens(x, 0);
    let q = quote_each(t);
    lemma_quote_each(t);
    assert forall|i: int| 0 <= i < q.len() implies whole_word(#[trigger] q[i]) by {
        let w = q[i];
        assert(plain_word(t[i]));
        assert(w == seq!['\''] + t[i] + seq!['\'']);
        assert forall|k: int| 1 <= k < w.len() - 1 implies w[k] != '\'' by {
            assert(w[k] == t[i][k - 1]);
        }
        assert forall|k: int| 0 <= k < w.len() implies !is_white(#[trigger] w[k]) by {
            if 1 <= k < w.len() - 1 {
                assert(w[k] == t[i][k - 1]);
            }
        }
        lemma_no_quote_find(w, 1);
    }
    lemma_reread(q);
    assert forall|i: int| 0 <= i < t.len() implies #[trigger] tokens(spaced(q))[i] == t[i] by {
        assert(q[i].subrange(1, q[i].len() - 1) =~= t[i]);
        assert(tokens(spaced(q))[i] == unwrap_single(q[i]));
    }
    assert(tokens(spaced(q)) =~= t);
    lemma_unquote_plain(t);
    lemma_reread_plain(t);
}

/// A `def` stage leaves the state as it was and binds each of its names to that state:
/// `S | def K | noop` gives what `S | noop` gives.
pub proof fn law_def_transparent(
    first: Seq<char>,
    def_stage: Seq<char>,
    noop_stage: Seq<char>,
    vars: Map<Seq<char>, Seq<char>>,
    outs: Seq<Option<Seq<char>>>,
    outs2: Seq<Option<Seq<char>>>,
)
    requires
        stage_parts(def_stage) is Some,
        (stage_parts(def_stage)->0).0 == "def"@,
        stage_parts(noop_stage) is Some,
        (stage_parts(noop_stage)->0).0 == "noop"@,
    ensures
        run_stages(seq![first, def_stage, noop_stage], 1, trim(first), vars, outs).0
            == run_stages(seq![first, noop_stage], 1, trim(first), vars, outs2).0,
        forall|k: Seq<char>| #[trigger] (stage_parts(def_stage)->0).1.contains(k) ==> run_stages(
            seq![first, def_stage, noop_stage], 1, trim(first), vars, outs).1.contains_key(k)
            && run_stages(seq![first, def_stage, noop_stage], 1, trim(first), vars, outs).1[k] == trim(first),
{
    lemma_names();
    let names = (stage_parts(def_stage)->0).1;
    let a = seq![first, def_stage, noop_stage];
    let b = seq![first, noop_stage];
    let after = define_all(vars, names, trim(first));
    assert(a[1] == def_stage && a[2] == noop_stage && b[1] == noop_stage);
    assert(run_stages(a, 1, trim(first), vars, outs) == run_stages(a, 2, trim(first), after, outs));
    let n = spaced(tokens(trim(first)));
    assert(command_result("noop"@, (stage_parts(noop_stage)->0).1, trim(first)) == Some(n));
    assert(run_stages(a, 2, trim(first), after, outs) == run_stages(a, 3, n, after, outs));
    assert(run_stages(b, 1, trim(first), vars, outs2) == run_stages(b, 2, n, vars, outs2));
    lemma_define_all(vars, names, trim(first));
}

proof fn lemma_define_all(vars: Map<Seq<char>, Seq<char>>, names: Seq<Seq<char>>, value: Seq<char>)
    ensures
        forall|k: Seq<char>| #[trigger] names.contains(k) ==> define_all(vars, names, value).contains_key(k)
            && define_all(vars, names, value)[k] == value,
    decreases names.len(),
{
    if names.len() > 0 {
        lemma_define_all(vars, names.drop_last(), value);
        assert forall|k: Seq<char>| #[trigger] names.contains(k) implies define_all(vars, names, value).contains_key(k)
            && define_all(vars, names, value)[k] == value by {
            if k != names.last() {
                let m = choose|m: int| 0 <= m < names.len() && names[m] == k;
                assert(m < names.len() - 1);
                assert(names.drop_last()[m] == k);
                assert(names.drop_last().contains(k));
            }
        }
    }
}

} // verus!
