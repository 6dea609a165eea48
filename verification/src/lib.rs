//! A byte-pair-encoding (BPE) tokenizer.
//!
//! Text is segmented into pieces by a fixed pre-tokenization grammar,
//! reserved special-token literals are carved out verbatim, and each
//! piece is reduced to a sequence of vocabulary ranks by iterative
//! lowest-rank-first pair merging.

pub mod chars;
pub mod encoder;
pub mod laws;
pub mod loader;
pub mod merge;
pub mod pretoken;
pub mod scanner;
pub mod vocab;
