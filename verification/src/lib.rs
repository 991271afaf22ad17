//! Context-free grammars, their four-pass simplification pipeline
//! (epsilon, unit, useless and unreachable removal), and a bounded lazy
//! generator that enumerates the terminal strings a simplified grammar
//! derives.

pub mod cfg;
pub mod generator;
