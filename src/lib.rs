//! Offline checking of recorded concurrent execution traces: a lexer, a
//! token normalizer, a record parser and an analyzer that reports data races,
//! lock-discipline breaches and potential deadlocks.

pub mod token;
pub mod lexer;
pub mod normalizer;
pub mod parser;
pub mod order;
pub mod races;
pub mod analyzer;
pub mod deadlock;
