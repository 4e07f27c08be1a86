//! Gaussian binomial coefficient vectors, computed diagonal by diagonal
//! with a bounded frontier cache and a permanent record of computed entries.
pub mod bignum;
pub mod gauss;
pub mod key;
pub mod flags;
pub mod frontier;
pub mod engine;
pub mod store;
