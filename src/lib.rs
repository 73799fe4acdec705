//! Clustering of paired immune-repertoire reads: fixed-width sequences with
//! per-symbol quality, a two-way counted index between barcodes (UMIs) and
//! variable regions (CDRs), global alignment of cluster members, and codon
//! translation.

pub mod sequence;
pub mod codon;
pub mod config;
pub mod affinity;
pub mod alignment;
pub mod clustering;
pub mod ingest;
pub mod ranking;
pub mod report;
