//! Synthetic text that statistically imitates a source text, by an order-N
//! Markov process computed on the fly: look at the last N tokens of output,
//! find every place the same run occurs in the source, tabulate what follows
//! each occurrence, and draw the next token with probability proportional to
//! its frequency. Tokens are whole words or single characters.

pub mod config;
pub mod hay;
pub mod sample;
pub mod symbols;
pub mod text;
pub mod words;
