//! Recomputes per-key statistics from multi-valued source fields and works out
//! the insert, update and delete operations that bring a cache table in line
//! with them.
pub mod normalize;
pub mod aggregate;
pub mod cache;
pub mod reconcile;
pub mod binding;
