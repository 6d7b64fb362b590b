//! A partitioned, read-optimised query engine: filter expressions are compiled
//! per partition into bitmap operators, and an aggregation action groups and
//! counts the matching rows across all partitions.

pub mod numbers;
pub mod bitmap;
pub mod storage;
pub mod filter;
pub mod database;
pub mod aggregated;
pub mod order;
pub mod query_engine;
