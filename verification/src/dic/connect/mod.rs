//! Connection matrices: the cost of placing one word next to another.
//!
//! A cost is looked up by the connection id that the first word has on its right side, the
//! column, and the one that the second word has on its left side, the row.

pub mod bitpacked;
pub mod either;
pub mod flat;
