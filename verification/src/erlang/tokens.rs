//! What the scanner hands out.

use vstd::prelude::*;

verus! {

/// The kinds of token.
#[derive(Debug)]
pub enum TokenType {
    /// The end of the input.
    Eof,
}

/// A token and the place where it was found.
#[derive(Debug)]
pub struct Token {
    pub ty: TokenType,
    pub lexeme: Option<String>,
    pub line: u32,
    pub col: u32,
}

} // verus!
