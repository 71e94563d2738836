//! Bounded-memory word n-gram ("phrase") counting over tree-shaped documents.
//!
//! The pipeline tokenizes recognized text fields into overlapping fixed-width
//! phrases, counts them in a sharded map, spills oversized partial maps to a
//! self-delimiting byte encoding, merges spilled data back, and renders a
//! frequency-ranked report.

pub mod codec;
pub mod map;
pub mod rank;
pub mod reduce;
pub mod tokenize;
pub mod value;
