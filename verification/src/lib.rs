//! A verified lexical scanner for parenthesized (s-expression) input.
//!
//! The scanner walks its input left to right and classifies each character
//! into one of four token categories: open parenthesis, close parenthesis,
//! identifier, or number. Scanning is total: an unrecognized character ends
//! the scan early, and the tokens accumulated so far are returned.

pub mod laws;
pub mod tokenizer;
