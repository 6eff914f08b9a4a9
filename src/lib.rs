//! A quantum cellular automaton on the integer lattice: a superposition of
//! classical configurations, advanced by a local 2×2 block rule on alternating
//! partitions, with interference between equal configurations and measurement.
//!
//! Amplitudes are fixed-point complex numbers (see `complex`), so that every
//! operation of the engine is exact integer arithmetic and is verified.

pub mod block;
pub mod complex;
pub mod configuration;
pub mod coordinates;
pub mod engine;
pub mod fingerprint;
pub mod interference;
pub mod measure;
pub mod rules;
pub mod universe;
