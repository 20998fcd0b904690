//! A 2D life simulation core: colored circular entities wander a bounded
//! field under a random-walk movement rule, while a depth-limited spatial
//! index buckets them into quadrants by the Morton XOR-of-corner-codes
//! rule for broad-phase collision detection. Movement, bucketing, index
//! maintenance and candidate queries are specified and verified; drawing
//! and the frame loop live outside the library.

pub mod field;
pub mod life;
mod rng;
pub mod morton;
pub mod quadtree;
pub mod detector;
pub mod universe;
