//! Splitting byte sequences into fixed-size groups and counting them.

pub mod utils;
