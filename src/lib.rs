//! Merging one player's scoreboard scores into another player's, over an
//! in-memory tree of tagged values.
pub mod node;
pub mod merge;
pub mod laws;
