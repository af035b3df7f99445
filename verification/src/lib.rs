//! Materialization of n-gram index shards.
//!
//! A columnar record source supplies (source file, byte offset) references;
//! each reference is resolved to the text line at that offset, and the
//! resolved lines are grouped into bounded-size output chunks.  The library
//! holds the verified core: the in-memory line cache with its recency-based
//! eviction, the chunk partitioning of a row space, the output-name
//! formatting, and the resume logic.  Reading record files, source files and
//! host memory statistics is left to the surrounding binary and to trusted
//! declarations.

pub mod chunks;
pub mod file_cache;
pub mod pipeline;
