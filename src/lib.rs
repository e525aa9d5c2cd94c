//! Combinator matching over text slices: terminal matchers, alternation,
//! sequencing with a length-bound-driven split search, outcome transforms,
//! and self-referential rules for recursive grammars.

pub mod parser;
pub mod parsers;
pub mod fractals;
pub mod laws;
