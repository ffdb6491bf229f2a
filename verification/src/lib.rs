//! Ranking of a repository's open issues by the net sentiment of their reactions.
//!
//! The library holds the rules: which records count as issues, what a reaction
//! is worth, how the scores are tallied and ordered, and how the requests and
//! the report are worded. Fetching and printing are left to the caller.

pub mod model;
pub mod text;
pub mod lister;
pub mod score;
pub mod ranking;
pub mod endpoints;
pub mod ratelimit;
