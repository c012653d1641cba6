//! The state a dashboard shows: tabs of output lines, and the events that update it.

use vstd::prelude::*;
use crate::chars::to_chars;

verus! {

/// What a dashboard reacts to: a key or other input, a change of build state, a clock tick.
#[derive(Debug)]
pub enum Event<T> {
    Input(T),
    State,
    Tick,
}

/// A tab of the dashboard: its title, its width on screen, and the lines printed in it.
#[derive(Debug)]
pub struct Tab {
    pub title: String,
    pub width: u16,
    pub printer: Vec<String>,
}

impl Tab {
    /// A tab titled `title`, wide enough for the title and a margin of one on each side,
    /// with nothing printed yet.
    pub fn new(title: &str) -> (r: Tab)
        requires
            title@.len() + 2 <= u16::MAX,
        ensures
            r.title@ == title@,
            r.width == title@.len() + 2,
            r.printer@.len() == 0,
    {
        let n = to_chars(title).len();
        Tab { title: title.to_owned(), width: 2 + n as u16, printer: Vec::new() }
    }
}

} // verus!
