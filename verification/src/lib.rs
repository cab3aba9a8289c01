//! Compact morphological dictionaries: reading, repacking and tokenizing with them.

pub mod analysis;
pub mod bytes;
pub mod dic;
pub mod error;
pub mod frontend;
pub mod plugin;
pub mod util;
