//! Container structures: the treap, a randomized balanced search tree,
//! and a disjoint-set forest.

pub mod disjoint_set;
pub mod treap;
