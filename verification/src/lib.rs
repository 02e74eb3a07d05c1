//! A minimal command-line tokenizer: one line of text is split into a
//! leading command name and its space-separated arguments.
pub mod parser;
