//! Whitespace: tokens, instructions, literals and the bit-packed format.
pub mod bit_pack;
pub mod bits;
pub mod inst;
pub mod int_literal;
pub mod integer;
pub mod literal_laws;
pub mod tests;
pub mod text;
pub mod token;
