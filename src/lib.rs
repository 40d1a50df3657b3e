//! Version vectors: per-replica counters that record the causal history of
//! a replica, with lookup, increment, join (component-wise maximum) and
//! causal comparison.
//!
//! A vector is kept as a sequence of `(id, counter)` pairs sorted strictly by
//! id. An id that does not appear counts as zero.

pub mod laws;
pub mod model;
pub mod ordering;
pub mod version_vec;

pub use ordering::Ordering;
pub use version_vec::VersionVec;
