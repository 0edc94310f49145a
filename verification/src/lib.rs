//! External-memory deduplication and sorting of whitespace-delimited tokens.
//!
//! A corpus of text files is cut into whitespace-aligned chunks (`chunk`),
//! each chunk is split into case-normalized tokens (`token`), every token is
//! routed to one of a fixed number of partitions by a stable hash (`route`),
//! each partition is compacted into a strictly ascending stream of
//! length-prefixed records (`compact`, `record`), and the streams are merged
//! into one strictly ascending, duplicate-free list of tokens (`heap`,
//! `merge`). `engine` runs these steps on a corpus held in memory and states
//! what the result is; a program that works on files drives the same steps
//! chunk by chunk and partition by partition.

pub mod chunk;
pub mod compact;
pub mod engine;
pub mod error;
pub mod heap;
pub mod merge;
pub mod order;
pub mod record;
pub mod report;
pub mod route;
pub mod split;
pub mod token;
