//! Incremental changelog engine: conventional commit records, snapshot
//! history of branch heads, sentinel-bounded traversal bookkeeping and
//! hierarchical grouping of changelog entries.

pub mod buckets;
pub mod config;
pub mod changelog;
pub mod error;
pub mod index_map;
pub mod keyed;
pub mod message;
pub mod project;
pub mod report;
pub mod run;
pub mod snapshots;
pub mod text;
