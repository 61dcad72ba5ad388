//! A concurrent TCP port-scanning engine: range partitioning, per-range
//! scanning over an injected probe, and merging of the workers' results.

pub mod config;
pub mod coordinator;
pub mod number;
pub mod order;
pub mod partition;
pub mod result;
pub mod result_set;
pub mod scan;
