//! Splitting texts into words.

pub mod candidates;
pub mod certainty;
pub mod input;
pub mod lattice;
pub mod likeness;
pub mod mode;
pub mod morpheme;
pub mod tokenizer;
