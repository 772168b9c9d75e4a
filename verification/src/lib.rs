//! Bounded state-space search: dense state keys, dominance tables, priority
//! frontiers, a label-correcting shortest-path driver and a memoized
//! recursive evaluator, each with a machine-checked contract.
//!
//! The tools live in the modules at the top level; [`puzzles`] holds
//! puzzles that are stated and solved with them.

pub mod bucket_queue;
pub mod dominance;
pub mod families;
pub mod frontier;
pub mod fx;
pub mod graph;
pub mod grid;
pub mod memo;
pub mod min_heap;
pub mod permutations;
pub mod puzzles;
pub mod radix;
pub mod search;
pub mod search_model;
pub mod state_key;
pub mod text;
