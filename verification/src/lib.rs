//! Core of a FRI-based polynomial commitment backend: arithmetic over the
//! Goldilocks prime field, the in-memory FRI proof records, and the lossless
//! compression / decompression transform on those records.

pub mod field;
pub mod extension;
pub mod structure;
pub mod compress;
pub mod target;
