//! A verified text-file statistics library: word, line and byte counts and
//! per-character frequency histograms for single files, an aggregate that
//! collects one record per submitted file, and a reporter that computes
//! order-independent totals and a ranked character-frequency merge. Smaller
//! verified utilities sit beside the core: number classification, a guessing
//! round, a line-oriented book catalog codec, and small generic containers.
pub mod aggregate;
pub mod catalog;
pub mod closures;
pub mod fetch;
pub mod guessing;
pub mod numbers;
pub mod report;
pub mod stats;
pub mod strutil;
pub mod students;
pub mod text;
