//! Utilities.

pub mod cow_array;
pub mod text;
