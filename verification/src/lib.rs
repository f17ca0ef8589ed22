//! Clustering of single cells by genotype, from sparse counts of reference and
//! alternate reads: everything of it that is done in whole numbers.
//!
//! `loader` reads the two count matrices and `loci` keeps the loci with enough
//! support and gives each cell its observations; `config` makes the parameters
//! of a run; `init` decides how the cluster centers are seeded and sums the
//! reads of randomly assigned cells; `em` says when the rounds of expectation
//! and maximization end. The rounds themselves are floating point and are left
//! to the caller.

pub mod cells;
pub mod config;
pub mod em;
pub mod init;
pub mod loader;
pub mod loci;
pub mod random;
pub mod tables;
pub mod text;
