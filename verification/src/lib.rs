//! Fuzzy prompt deduplication engine.
//!
//! Given a noisy collection of raw user-submitted text strings, the engine
//! normalizes each string (case folding, trimming, rejection of code-like
//! noise), counts exact duplicates of the normalized form, and greedily
//! groups near-duplicate texts into clusters by an edit-distance similarity
//! predicate, returning the clusters ordered by descending aggregate count.

pub mod dedup;
pub mod lev;
pub mod text;
