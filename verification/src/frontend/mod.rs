//! What programs around the library hand out.

pub mod registry;
pub mod tokenizer;
