//! Operations on words: joining, numbers, ordering, splitting and trimming.

use vstd::prelude::*;
use crate::chars::{is_white, is_whitespace};
use crate::scan::views;

verus! {

/// The words joined, with `sep` between each two.
pub open spec fn join(ts: Seq<Seq<char>>, sep: Seq<char>) -> Seq<char>
    decreases ts.len(),
{
    if ts.len() == 0 {
        seq![]
    } else if ts.len() == 1 {
        ts[0]
    } else {
        join(ts.drop_last(), sep) + sep + ts.last()
    }
}

/// Joins the words, with `sep` between each two.
pub fn join_words(ts: &Vec<Vec<char>>, sep: &[char]) -> (r: Vec<char>)
    ensures
        r@ == join(views(ts@), sep@),
{
    let mut out: Vec<char> = Vec::new();
    let mut i: usize = 0;
    while i < ts.len()
        invariant
            i <= ts@.len(),
            out@ == join(views(ts@).take(i as int), sep@),
        decreases ts@.len() - i,
    {
        let ghost before = out@;
        if i > 0 {
            let mut k: usize = 0;
            while k < sep.len()
                invariant
                    k <= sep@.len(),
                    out@ == before + sep@.take(k as int),
                decreases sep@.len() - k,
            {
                out.push(sep[k]);
                k += 1;
                assert(out@ =~= before + sep@.take(k as int));
            }
        }
        let ghost mid = out@;
        let w = &ts[i];
        let mut k: usize = 0;
        while k < w.len()
            invariant
                k <= w@.len(),
                out@ == mid + w@.take(k as int),
            decreases w@.len() - k,
        {
            out.push(w[k]);
            k += 1;
            assert(out@ =~= mid + w@.take(k as int));
        }
        proof {
            let t = views(ts@).take(i + 1);
            assert(t.drop_last() =~= views(ts@).take(i as int));
            assert(sep@.take(sep@.len() as int) =~= sep@);
            assert(w@.take(w@.len() as int) =~= w@);
            if i == 0 {
                assert(out@ =~= t[0]);
            }
        }
        i += 1;
    }
    assert(views(ts@).take(i as int) =~= views(ts@));
    out
}

/// The decimal digit of a number below ten.
pub open spec fn digit_char(d: nat) -> char {
    if d == 0 { '0' } else if d == 1 { '1' } else if d == 2 { '2' } else if d == 3 { '3' }
    else if d == 4 { '4' } else if d == 5 { '5' } else if d == 6 { '6' } else if d == 7 { '7' }
    else if d == 8 { '8' } else { '9' }
}

/// The decimal form of `n`.
pub open spec fn decimal(n: nat) -> Seq<char>
    decreases n,
{
    if n < 10 {
        seq![digit_char(n)]
    } else {
        decimal(n / 10).push(digit_char(n % 10))
    }
}

/// Writes `n` in decimal.
pub fn to_decimal(n: usize) -> (r: Vec<char>)
    ensures
        r@ == decimal(n as nat),
    decreases n,
{
    let d = n % 10;
    let c = if d == 0 { '0' } else if d == 1 { '1' } else if d == 2 { '2' } else if d == 3 { '3' }
    else if d == 4 { '4' } else if d == 5 { '5' } else if d == 6 { '6' } else if d == 7 { '7' }
    else if d == 8 { '8' } else { '9' };
    if n < 10 {
        let mut v: Vec<char> = Vec::new();
        v.push(c);
        v
    } else {
        let mut v = to_decimal(n / 10);
        v.push(c);
        v
    }
}

pub open spec fn is_digit(c: char) -> bool {
    '0' <= c && c <= '9'
}

/// The value of a string of decimal digits.
pub open spec fn digits_value(s: Seq<char>) -> nat
    decreases s.len(),
{
    if s.len() == 0 {
        0
    } else {
        digits_value(s.drop_last()) * 10 + ((s.last() as u32 - '0' as u32) as nat)
    }
}

/// The digits of a number: all but a leading `+`.
pub open spec fn digits_part(s: Seq<char>) -> Seq<char> {
    if s.len() > 0 && s[0] == '+' {
        s.drop_first()
    } else {
        s
    }
}

/// The value of `s` read as an unsigned machine integer: an optional `+` and at least one
/// decimal digit, whose value fits in `usize`.
pub open spec fn number_of(s: Seq<char>) -> Option<nat> {
    let d = digits_part(s);
    if d.len() > 0 && (forall|i: int| 0 <= i < d.len() ==> is_digit(#[trigger] d[i]))
        && digits_value(d) <= usize::MAX {
        Some(digits_value(d))
    } else {
        None
    }
}

proof fn lemma_digits_grow(d: Seq<char>, i: int, j: int)
    requires
        0 <= i <= j <= d.len(),
        forall|k: int| 0 <= k < d.len() ==> is_digit(#[trigger] d[k]),
    ensures
        digits_value(d.take(i)) <= digits_value(d.take(j)),
    decreases j - i,
{
    if i < j {
        lemma_digits_grow(d, i, j - 1);
        assert(d.take(j).drop_last() =~= d.take(j - 1));
    }
}

/// Reads an unsigned number: an optional `+` and decimal digits that fit in `usize`.
pub fn parse_number(s: &[char]) -> (r: Option<usize>)
    ensures
        r.is_some() == number_of(s@).is_some(),
        r.is_some() ==> r.unwrap() as nat == number_of(s@).unwrap(),
{
    let start: usize = if s.len() > 0 && s[0] == '+' { 1 } else { 0 };
    let ghost d = digits_part(s@);
    assert(d =~= s@.subrange(start as int, s@.len() as int));
    if start >= s.len() {
        return None;
    }
    let mut v: usize = 0;
    let mut i = start;
    while i < s.len()
        invariant
            start <= i <= s@.len(),
            d == digits_part(s@),
            d =~= s@.subrange(start as int, s@.len() as int),
            forall|k: int| 0 <= k < i - start ==> is_digit(#[trigger] d[k]),
            v as nat == digits_value(d.take(i - start)),
        decreases s@.len() - i,
    {
        let c = s[i];
        if !('0' <= c && c <= '9') {
            assert(d[i - start] == c);
            assert(!is_digit(d[i - start]));
            assert(!(forall|k: int| 0 <= k < d.len() ==> is_digit(#[trigger] d[k])));
            assert(d == digits_part(s@));
            assert(number_of(s@).is_none());
            return None;
        }
        let dv = (c as u32 - '0' as u32) as usize;
        proof {
            assert(d.take(i - start + 1).drop_last() =~= d.take(i - start));
        }
        if v > (usize::MAX - dv) / 10 {
            proof {
                assert(digits_value(d.take(i - start + 1)) > usize::MAX) by (nonlinear_arith)
                    requires
                        v > (usize::MAX - dv) / 10,
                        digits_value(d.take(i - start + 1)) == v * 10 + dv,
                        dv <= 9,
                ;
                if forall|k: int| 0 <= k < d.len() ==> is_digit(#[trigger] d[k]) {
                    lemma_digits_grow(d, i - start + 1, d.len() as int);
                    assert(d.take(d.len() as int) =~= d);
                    assert(digits_value(d) > usize::MAX);
                }
                assert(number_of(s@).is_none());
            }
            return None;
        }
        v = v * 10 + dv;
        i += 1;
    }
    assert(d.take(i - start) =~= d);
    Some(v)
}

/// Lexicographic order on strings, by character.
pub open spec fn lex_le(a: Seq<char>, b: Seq<char>) -> bool
    decreases a.len(),
{
    if a.len() == 0 {
        true
    } else if b.len() == 0 {
        false
    } else if a[0] != b[0] {
        a[0] < b[0]
    } else {
        lex_le(a.drop_first(), b.drop_first())
    }
}

pub fn lex_less_eq(a: &[char], b: &[char]) -> (r: bool)
    ensures
        r == lex_le(a@, b@),
{
    let mut i: usize = 0;
    assert(a@.skip(0) =~= a@);
    assert(b@.skip(0) =~= b@);
    while i < a.len() && i < b.len()
        invariant
            i <= a@.len(),
            i <= b@.len(),
            lex_le(a@, b@) == lex_le(a@.skip(i as int), b@.skip(i as int)),
        decreases a@.len() - i,
    {
        if a[i] != b[i] {
            return a[i] < b[i];
        }
        assert(a@.skip(i as int).drop_first() =~= a@.skip(i + 1));
        assert(b@.skip(i as int).drop_first() =~= b@.skip(i + 1));
        i += 1;
    }
    i == a.len()
}

/// `x` placed into `t` before the first word not below it.
pub open spec fn insert_sorted(x: Seq<char>, t: Seq<Seq<char>>) -> Seq<Seq<char>>
    decreases t.len(),
{
    if t.len() == 0 {
        seq![x]
    } else if lex_le(x, t[0]) {
        seq![x] + t
    } else {
        seq![t[0]] + insert_sorted(x, t.drop_first())
    }
}

/// The words in ascending lexicographic order.
pub open spec fn sorted_words(s: Seq<Seq<char>>) -> Seq<Seq<char>>
    decreases s.len(),
{
    if s.len() == 0 {
        s
    } else {
        insert_sorted(s.last(), sorted_words(s.drop_last()))
    }
}

pub open spec fn insert_at(x: Seq<char>, t: Seq<Seq<char>>, j: int) -> Seq<Seq<char>> {
    t.take(j).push(x) + t.skip(j)
}

proof fn lemma_insert_sorted(x: Seq<char>, t: Seq<Seq<char>>, j: int)
    requires
        0 <= j <= t.len(),
        forall|k: int| 0 <= k < j ==> !lex_le(x, #[trigger] t[k]),
        j < t.len() ==> lex_le(x, t[j]),
    ensures
        insert_sorted(x, t) == insert_at(x, t, j),
    decreases t.len(),
{
    if t.len() == 0 {
        assert(insert_at(x, t, j) =~= seq![x]);
    } else if j == 0 {
        assert(insert_at(x, t, j) =~= seq![x] + t);
    } else {
        lemma_insert_sorted(x, t.drop_first(), j - 1);
        assert(insert_at(x, t, j) =~= seq![t[0]] + insert_at(x, t.drop_first(), j - 1));
    }
}

/// Sorts the words in ascending lexicographic order.
pub fn sort_words(ts: &Vec<Vec<char>>) -> (r: Vec<Vec<char>>)
    ensures
        views(r@) == sorted_words(views(ts@)),
{
    let mut out: Vec<Vec<char>> = Vec::new();
    let mut i: usize = 0;
    while i < ts.len()
        invariant
            i <= ts@.len(),
            views(out@) == sorted_words(views(ts@).take(i as int)),
        decreases ts@.len() - i,
    {
        let x = &ts[i];
        let mut j: usize = 0;
        while j < out.len() && !lex_less_eq(x, &out[j])
            invariant
                j <= out@.len(),
                forall|k: int| 0 <= k < j ==> !lex_le(x@, #[trigger] views(out@)[k]),
            decreases out@.len() - j,
        {
            j += 1;
        }
        proof {
            lemma_insert_sorted(x@, views(out@), j as int);
            let t = views(ts@).take(i + 1);
            assert(t.drop_last() =~= views(ts@).take(i as int));
        }
        let ghost before = views(out@);
        out.insert(j, x.clone());
        assert(views(out@) =~= insert_at(x@, before, j as int));
        i += 1;
    }
    assert(views(ts@).take(i as int) =~= views(ts@));
    out
}

/// The index of the first white character at or after `i`, scanning from the front.
pub open spec fn first_non_white(s: Seq<char>, i: int) -> int
    decreases s.len() - i,
{
    if i < 0 || i >= s.len() || !is_white(s[i]) {
        i
    } else {
        first_non_white(s, i + 1)
    }
}

/// The end of `s` without the white characters that close it, looking below `j`.
pub open spec fn last_non_white_end(s: Seq<char>, j: int) -> int
    decreases j,
{
    if j <= 0 || j > s.len() || !is_white(s[j - 1]) {
        j
    } else {
        last_non_white_end(s, j - 1)
    }
}

/// `s` without white space at either end.
pub open spec fn trim(s: Seq<char>) -> Seq<char> {
    let a = first_non_white(s, 0);
    let b = last_non_white_end(s, s.len() as int);
    if a < b {
        s.subrange(a, b)
    } else {
        seq![]
    }
}

/// Takes white space off both ends.
pub fn trim_chars(s: &[char]) -> (r: Vec<char>)
    ensures
        r@ == trim(s@),
{
    let mut a: usize = 0;
    while a < s.len() && is_whitespace(s[a])
        invariant
            a <= s@.len(),
            first_non_white(s@, 0) == first_non_white(s@, a as int),
        decreases s@.len() - a,
    {
        a += 1;
    }
    let mut b: usize = s.len();
    while b > 0 && is_whitespace(s[b - 1])
        invariant
            b <= s@.len(),
            last_non_white_end(s@, s@.len() as int) == last_non_white_end(s@, b as int),
        decreases b,
    {
        b -= 1;
    }
    if a < b {
        crate::scan::slice_chars(s, a, b)
    } else {
        Vec::new()
    }
}

} // verus!
