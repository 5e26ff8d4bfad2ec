//! Whitespace program tooling: the bit-packed token lexer, integer literal
//! parsing, the instruction table, and feature detection.
pub mod detect;
pub mod ws;
