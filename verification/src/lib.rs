//! Summaries of a corpus of competitive-programming problems.
//!
//! A scan of the corpus is handed over as a [`snapshot::Entry`]: a directory
//! with its entries, taken at one moment. From it the library finds the
//! problems, prunes the hierarchy down to the branches that lead to one, and
//! renders the result as markdown, flat or nested. Every function here is a
//! function of its arguments alone.

pub mod names;
pub mod snapshot;
pub mod verdict;
pub mod mirrors;
pub mod tree;
pub mod listing;
pub mod render;
pub mod report;


