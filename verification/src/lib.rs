//! Verified solvers for two small text-puzzle computations.
//!
//! The crate holds two independent batch computations over plain text:
//! a directory-size aggregator that replays a terminal session
//! transcript into a tree of directory records and answers two
//! threshold queries over recursive directory sizes, and a rope
//! simulator that replays unit moves of a head point on an integer
//! grid, derives the trailing tail point with an eight-neighbourhood
//! adjacency rule, and counts the distinct tail positions visited.

pub mod bytes;
pub mod dirs;
pub mod rope;
