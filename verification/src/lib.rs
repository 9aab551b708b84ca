//! Verified core of a log-parsing and log-search library.

pub mod graph;
pub mod interval_tree;
pub mod nfa;
pub mod parsing_spec;
pub mod regex;
pub mod search;
pub mod text;
pub mod utils;
pub mod prefilter;
