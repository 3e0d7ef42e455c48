//! Verification of a large modular multiplication from an unreduced witness.
pub mod words;
pub mod field;
pub mod poly;
pub mod reconcile;
pub mod trace;
pub mod modmul;
pub mod properties;
