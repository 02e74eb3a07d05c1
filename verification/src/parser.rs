//! The scanner, the character-level model it is stated over, and the laws
//! that hold of every parse.
pub mod text;
pub mod parse;
pub mod laws;
