//! Small support utilities: the pseudo-random number generator that
//! supplies treap priorities.

pub mod random;
