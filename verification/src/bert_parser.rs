//! Decoding one term from a slice.

use vstd::prelude::*;
use vstd::slice::slice_to_vec;
use crate::bertterm::BertTerm;
use crate::bertterm::Term;
use crate::error::BertError;
use crate::float::is_float_parser;
use crate::float::parsed_float;
use crate::grammar::FloatParse;
use crate::grammar::Parsed;
use crate::grammar::magic_at;
use crate::grammar::term_at;
use crate::parser::BertParser;

verus! {

/// Whether a byte pads the text of an old-style float.
pub fn is_zero(b: u8) -> (r: bool)
    ensures
        r == (b == 0),
{
    b == 0
}

/// Whether a byte belongs to the text of an old-style float.
pub fn is_non_zero(b: u8) -> (r: bool)
    ensures
        r == (b != 0),
{
    b != 0
}

/// What stands at the start of a buffer: the magic byte, then a term.
pub open spec fn parse_spec(s: Seq<u8>, float_of: FloatParse) -> Parsed<Term> {
    match magic_at(s, 0) {
        Ok((_, p)) => term_at(s, p, float_of),
        Err(e) => Err(e),
    }
}

/// Decodes the term at the start of `i`, behind its magic byte, and tells
/// how many bytes it took, so that the rest is `i` from there on.
/// `parse_float` turns the text of an old-style float into the bits of the
/// number.
pub fn parse<F: Fn(Vec<u8>) -> Option<u64>>(i: &[u8], parse_float: &F) -> (r: Result<
    (BertTerm, usize),
    BertError,
>)
    requires
        is_float_parser(*parse_float),
    ensures
        match parse_spec(i@, parsed_float(*parse_float)) {
            Ok((term, end)) => r matches Ok(read) && read.0@ == term && read.1 == end && end
                <= i@.len(),
            Err(e) => r matches Err(err) && err == e,
        },
{
    let mut parser = BertParser::new(slice_to_vec(i));
    parser.magic_number()?;
    let term = parser.bert_term(parse_float)?;
    Ok((term, parser.offset()))
}

} // verus!
