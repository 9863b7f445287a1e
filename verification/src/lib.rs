//! Conversion of genome-contact (Hi-C) alignment records into a canonical,
//! deduplicated, globally sorted stream of contact-pair records.
//!
//! The pipeline has four stages: the extractor groups alignment records by
//! read and emits raw pair records, the optional coordinate mapper translates
//! linear contig coordinates into assembly-graph coordinates, the
//! deduplicator drops records whose fingerprint was already seen, and the
//! sorter produces a stable, globally ordered output. The orchestrator in
//! [`pipeline`] composes the stages and accounts for every record in a
//! statistics block.

pub mod pair;
pub mod mapper;
pub mod extract;
pub mod dedup;
pub mod sort;
pub mod pipeline;
