//! Printing a term with the usual layout.

use vstd::prelude::*;
use crate::bertterm::BertTerm;
use crate::float::formatted_float;
use crate::float::is_float_printer;
use crate::pp::erlang::ErlangPrettyPrinter;
use crate::pp::erlang::Layout;
use crate::pp::erlang::erlang_term;

verus! {

/// Spaces per nesting level.
pub const INDENT_WIDTH: usize = 2;

/// The most elements that a collection on one line may have.
pub const MAX_TERMS_PER_LINE: usize = 4;

/// Appends to `out` the Erlang source text of `term`, which stands at
/// nesting depth `indent_level`, with two spaces for each level and up to
/// four basic terms on a line. `format_float` gives the text of a
/// floating-point number.
pub fn print<F: Fn(u64) -> Vec<u8>>(
    term: &BertTerm,
    indent_level: usize,
    out: &mut Vec<u8>,
    format_float: &F,
)
    requires
        is_float_printer(*format_float),
    ensures
        final(out)@ == old(out)@ + erlang_term(
            term@,
            indent_level,
            (Layout { indent_width: INDENT_WIDTH, max_terms_per_line: MAX_TERMS_PER_LINE }),
            formatted_float(*format_float),
        ),
{
    let printer = ErlangPrettyPrinter::new(INDENT_WIDTH, MAX_TERMS_PER_LINE, "");
    printer.write_term(term, out, indent_level, format_float);
}

} // verus!
