//! Variant calling on a genome variation graph, anchored on ultrabubbles.
//!
//! The graph's segments are indexed by id, each path is turned into a
//! sequence of oriented steps with base offsets, ultrabubbles are loaded
//! as (entry, exit) pairs, assigned to representative paths, and compared
//! across paths to produce sorted variant records.
pub mod graph;
pub mod assign;
pub mod bubbles;
pub mod variants;
pub mod order;
pub mod serialize;
pub mod pipeline;
