//! The three ways to write a term out: in the binary format, as Erlang
//! source text and as JSON.

use vstd::prelude::*;
use crate::bertterm::BertTerm;
use crate::bertterm::Term;
use crate::float::FloatText;
use crate::float::formatted_float;
use crate::float::is_float_printer;

pub mod bert;
pub mod erlang;
pub mod json;
pub mod utils;

pub use bert::BertWriter;
pub use erlang::ErlangPrettyPrinter;
pub use json::JsonPrettyPrinter;
pub use utils::is_printable;
pub use utils::must_be_escaped;

verus! {

/// A way to write a term out as text.
pub trait PrettyPrinter {
    /// The text of a term, given the text of every floating-point number.
    spec fn rendering(&self, term: Term, float_text: FloatText) -> Seq<u8>;

    /// Appends the text of `term` to `out`. `format_float` gives the text of
    /// a floating-point number.
    fn write<F: Fn(u64) -> Vec<u8>>(&self, term: &BertTerm, out: &mut Vec<u8>, format_float: &F)
        requires
            is_float_printer(*format_float),
        ensures
            final(out)@ == old(out)@ + self.rendering(term@, formatted_float(*format_float)),
    ;
}

} // verus!
