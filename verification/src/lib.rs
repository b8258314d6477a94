//! A prover for the commit and query phases of FRI, together with the
//! Karatsuba convolutions used by circulant MDS layers.
pub mod powers;
pub mod config;
pub mod fri_proof;
pub mod convolution;
pub mod karatsuba_convolution;
pub mod prover;
