//! A fixed-capacity key-value cache with least-recently-used eviction, and a
//! line-oriented text form of its contents.

pub mod cache;
pub mod laws;
pub mod model;
pub mod persistence;
pub mod structs;
pub mod text;
pub mod traits;

pub use structs::Cache;
