//! Data-engine kernels and an embedded key-value store.
pub mod answer_cells;
pub mod answer_store;
pub mod certificate;
pub mod chase;
pub mod cliques;
pub mod coordination;
pub mod engine;
pub mod executable;
pub mod factorized;
pub mod fenwick;
pub mod front;
pub mod hex;
pub mod hull;
pub mod joint;
pub mod laboratory;
pub mod laws;
pub mod numbers;
pub mod pgm;
pub mod polynomial;
pub mod prefix;
pub mod progressive;
pub mod random;
pub mod ranking_cert;
pub mod redundancy;
pub mod residue;
pub mod shared;
pub mod spi;
pub mod triples;
pub mod wcoj;
pub mod workload;
