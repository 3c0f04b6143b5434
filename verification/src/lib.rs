//! Data structures and number-theoretic utilities for algorithmic
//! programming: a randomized balanced search tree (treap) with verified
//! ordering, heap and size invariants, together with modular arithmetic,
//! prime utilities, reduced fractions and a deterministic pseudo-random
//! number generator.

pub mod collections;
pub mod math;
pub mod misc;
