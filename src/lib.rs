//! Contention demos with verified cores: a dense matrix product, a model of
//! a shared counter under three coordination disciplines, and the resource
//! ring of the dining philosophers with an ascending acquisition order.
//! Threads, locks, sleeps and clocks live with the caller; this crate decides
//! and computes.

pub mod random;
pub mod matrix;
pub mod counter;
pub mod ring;
