//! Search engine for a five-letter word-deduction puzzle: feedback codes,
//! dictionary partitioning, and branch-and-bound guess-tree search.

pub mod config;
pub mod dict;
pub mod solve;
pub mod word_match;
