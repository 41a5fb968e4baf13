//! Analysis of access traces: how often each item occurs, and how far back in
//! the recency order each access reaches.

pub mod cache;
pub mod condition;
pub mod laws;
pub mod model;
pub mod policy;
pub mod stats;
pub mod text;
pub mod trace;

pub use trace::StackDistance;
pub use trace::Trace;
pub use cache::Cache;
