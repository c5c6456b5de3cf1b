//! Wave function collapse: learning square patterns and their adjacency rules from a picture,
//! and generating a larger picture by observation, propagation and backtracking.

pub mod bitset;
pub mod direction;
pub mod pixel_grid;
pub mod pattern;
pub mod pattern_extractor;
pub mod rules;
pub mod cell;
pub mod wave;
pub mod random;
pub mod entropy_buckets;
pub mod entropy_heap;
pub mod undo_log;
pub mod model;
pub mod solver;
pub mod renderer;
