//! The beginnings of a scanner for Erlang source text.

pub mod scanner;
pub mod tokens;
