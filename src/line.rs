//! The leading flags of a command line.

use vstd::prelude::*;
use crate::chars::{from_chars, is_white, is_whitespace, to_chars};
use crate::scan::slice_chars;

verus! {

/// A command line split into its leading flag cluster and the rest.
#[derive(Debug)]
pub struct LineInfo {
    /// The line without its leading flags and white space; empty when nothing else is there.
    pub sans_flags: String,
    /// The whole line.
    pub full_line: String,
    /// White space stood among the leading flags.
    pub shell: bool,
    /// `+` stood among the leading flags.
    pub debug: bool,
    /// `-` stood among the leading flags.
    pub silence: bool,
    /// `^` stood among the leading flags.
    pub neglect: bool,
    /// Where the rest begins, in characters; zero when nothing follows the flags.
    pub split: usize,
}

pub open spec fn is_flag(c: char) -> bool {
    c == '+' || c == '-' || c == '^' || is_white(c)
}

/// The end of the leading run of flags and white space.
pub open spec fn flags_end(l: Seq<char>, i: int) -> int
    decreases l.len() - i,
{
    if i < 0 || i >= l.len() || !is_flag(l[i]) {
        i
    } else {
        flags_end(l, i + 1)
    }
}

/// Whether `c` stands before `end` in `l`.
pub open spec fn flagged(l: Seq<char>, end: int, c: char) -> bool {
    exists|k: int| 0 <= k < end && l[k] == c
}

impl LineInfo {
    /// The flags and the rest of `line`.
    pub fn from(line: &str) -> (r: LineInfo)
        ensures
            ({
                let l = line@;
                let e = flags_end(l, 0);
                &&& r.full_line@ == l
                &&& r.sans_flags@ == (if e < l.len() { l.subrange(e, l.len() as int) } else { seq![] })
                &&& r.split == (if e < l.len() { e } else { 0 })
                &&& r.shell == exists|k: int| 0 <= k < e && is_white(#[trigger] l[k])
                &&& r.debug == flagged(l, e, '+')
                &&& r.silence == flagged(l, e, '-')
                &&& r.neglect == flagged(l, e, '^')
            }),
    {
        let l = to_chars(line);
        let mut shell = false;
        let mut debug = false;
        let mut silence = false;
        let mut neglect = false;
        let mut i: usize = 0;
        while i < l.len() && (l[i] == '+' || l[i] == '-' || l[i] == '^' || is_whitespace(l[i]))
            invariant
                i <= l@.len(),
                flags_end(l@, 0) == flags_end(l@, i as int),
                forall|k: int| 0 <= k < i ==> is_flag(#[trigger] l@[k]),
                shell == exists|k: int| 0 <= k < i && is_white(#[trigger] l@[k]),
                debug == flagged(l@, i as int, '+'),
                silence == flagged(l@, i as int, '-'),
                neglect == flagged(l@, i as int, '^'),
            decreases l@.len() - i,
        {
            let c = l[i];
            if is_whitespace(c) {
                shell = true;
            } else if c == '+' {
                debug = true;
            } else if c == '-' {
                silence = true;
            } else {
                neglect = true;
            }
            proof {
                assert(l@[i as int] == c);
                assert(shell == exists|k: int| 0 <= k < i + 1 && is_white(#[trigger] l@[k]));
                assert(debug == flagged(l@, i + 1, '+'));
                assert(silence == flagged(l@, i + 1, '-'));
                assert(neglect == flagged(l@, i + 1, '^'));
            }
            i += 1;
        }
        let rest = if i < l.len() { slice_chars(&l, i, l.len()) } else { Vec::new() };
        assert(rest@ =~= (if i < l@.len() { l@.subrange(i as int, l@.len() as int) } else { seq![] }));
        LineInfo {
            sans_flags: from_chars(&rest),
            full_line: from_chars(&l),
            shell,
            debug,
            silence,
            neglect,
            split: if i < l.len() { i } else { 0 },
        }
    }
}

} // verus!
