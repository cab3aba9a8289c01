//! Providers of words that are in no dictionary.

pub mod oov;
