//! Quote-aware splitting of text.

use vstd::prelude::*;
use crate::chars::{from_chars, to_chars};
use crate::recipe::strings;
use crate::scan::{balanced_parts, split_balanced};

verus! {

/// The parts of `s` between unquoted occurrences of `on`, without their starts.
pub open spec fn balanced_texts(s: Seq<char>, on: char, quote: char) -> Seq<Seq<char>> {
    balanced_parts(s, on, quote).map_values(|p: (int, Seq<char>)| p.1)
}

/// Splitting text on a character that does not count inside quotes.
pub trait Text {
    spec fn chars_view(&self) -> Seq<char>;

    /// The non-empty parts between the occurrences of `on` outside spans quoted by `quote`.
    fn split_when_balanced(&self, on: char, quote: char) -> (r: Vec<String>)
        ensures
            strings(r@) == balanced_texts(self.chars_view(), on, quote);

    /// The same parts, each with the index (in characters) where it starts.
    fn split_when_balanced_with_offsets(&self, on: char, quote: char) -> (r: Vec<(usize, String)>)
        ensures
            r@.len() == balanced_parts(self.chars_view(), on, quote).len(),
            forall|k: int| 0 <= k < r@.len() ==> (#[trigger] r@[k]).0 as int == balanced_parts(self.chars_view(), on, quote)[k].0
                && r@[k].1@ == balanced_parts(self.chars_view(), on, quote)[k].1;

    /// The text, or `''` when it is empty.
    fn or_quotes(&self) -> (r: String)
        ensures
            r@ == (if self.chars_view().len() == 0 { seq!['\'', '\''] } else { self.chars_view() });
}

impl Text for str {
    open spec fn chars_view(&self) -> Seq<char> {
        self@
    }

    fn split_when_balanced(&self, on: char, quote: char) -> (r: Vec<String>) {
        let parts = self.split_when_balanced_with_offsets(on, quote);
        let mut out: Vec<String> = Vec::new();
        let mut k: usize = 0;
        while k < parts.len()
            invariant
                k <= parts@.len(),
                parts@.len() == balanced_parts(self@, on, quote).len(),
                forall|m: int| 0 <= m < parts@.len() ==> (#[trigger] parts@[m]).1@ == balanced_parts(self@, on, quote)[m].1,
                strings(out@) == balanced_texts(self@, on, quote).take(k as int),
            decreases parts@.len() - k,
        {
            let ghost before = strings(out@);
            let piece = parts[k].1.clone();
            out.push(piece);
            assert(strings(out@) =~= before.push(parts@[k as int].1@));
            assert(strings(out@) =~= balanced_texts(self@, on, quote).take(k + 1));
            k += 1;
        }
        assert(balanced_texts(self@, on, quote).take(k as int) =~= balanced_texts(self@, on, quote));
        out
    }

    fn split_when_balanced_with_offsets(&self, on: char, quote: char) -> (r: Vec<(usize, String)>) {
        let t = to_chars(self);
        let parts = split_balanced(&t, on, quote);
        let mut out: Vec<(usize, String)> = Vec::new();
        let mut k: usize = 0;
        while k < parts.len()
            invariant
                k <= parts@.len(),
                t@ == self@,
                parts@.len() == balanced_parts(t@, on, quote).len(),
                forall|m: int| 0 <= m < parts@.len() ==> (#[trigger] parts@[m]).0 as int == balanced_parts(t@, on, quote)[m].0
                    && parts@[m].1@ == balanced_parts(t@, on, quote)[m].1,
                out@.len() == k,
                forall|m: int| 0 <= m < k ==> (#[trigger] out@[m]).0 as int == balanced_parts(t@, on, quote)[m].0
                    && out@[m].1@ == balanced_parts(t@, on, quote)[m].1,
            decreases parts@.len() - k,
        {
            out.push((parts[k].0, from_chars(&parts[k].1)));
            k += 1;
        }
        out
    }

    fn or_quotes(&self) -> (r: String) {
        let t = to_chars(self);
        if t.len() == 0 {
            let mut q: Vec<char> = Vec::new();
            q.push('\'');
            q.push('\'');
            assert(q@ =~= seq!['\'', '\'']);
            from_chars(&q)
        } else {
            from_chars(&t)
        }
    }
}

} // verus!
