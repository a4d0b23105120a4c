//! Rewrites of a collected program that keep what it does.
pub mod collapse_unbounded;
