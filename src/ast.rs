//! The shape of an expanded command line.

use vstd::prelude::*;

verus! {

/// A node of a command line's structure: plain text, a variable reference, or a subcall
/// (whose flag tells whether it was closed), under a root.
#[derive(Debug)]
pub enum ShellNode {
    Root(Vec<ShellNode>),
    Subcall(Vec<ShellNode>, bool),
    Expand(String),
    Text(String),
}

} // verus!
