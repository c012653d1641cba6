//! Haymaker: a parallel build system driven by a small macro language.

pub mod ast;
pub mod chars;
pub mod comments;
pub mod vars;
pub mod scan;
pub mod words;
pub mod stages;
pub mod text;
pub mod pipeline;
pub mod expand;
pub mod graph;
pub mod highlight;
pub mod gui;
pub mod hayfile;
pub mod laws;
pub mod line;
pub mod recipe;
pub mod pipeline_laws;
