//! A vocabulary-drilling engine: dictionaries indexed by obscurity, a per-word
//! forgetting-curve model of what a user knows, a weighted sampler that builds
//! practice sessions, and the versioned byte envelope in which all of it is
//! stored.

pub mod error;
pub mod program;
pub mod tools;
pub mod words;
