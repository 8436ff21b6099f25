//! Floating-point numbers are held as their IEEE 754 bits. Turning text into
//! such a number, and such a number into text, is the caller's part: it
//! hands the decoder and the printers a function for it.

use vstd::prelude::*;
use crate::grammar::FloatParse;

verus! {

/// Whether `parse` can give `r` back for `text`.
pub open spec fn may_parse_as<F: Fn(Vec<u8>) -> Option<u64>>(
    parse: F,
    text: Seq<u8>,
    r: Option<u64>,
) -> bool {
    exists|v: Vec<u8>| v@ == text && #[trigger] call_ensures(parse, (v,), r)
}

/// What `parse` gives back for a text.
pub open spec fn parsed_float<F: Fn(Vec<u8>) -> Option<u64>>(parse: F) -> FloatParse {
    |text: Seq<u8>| choose|r: Option<u64>| #[trigger] may_parse_as(parse, text, r)
}

/// A float parser can be called on every text, and what it gives back
/// depends on the text alone.
pub open spec fn is_float_parser<F: Fn(Vec<u8>) -> Option<u64>>(parse: F) -> bool {
    &&& forall|v: Vec<u8>| call_requires(parse, (v,))
    &&& forall|v: Vec<u8>, r: Option<u64>| #[trigger]
        call_ensures(parse, (v,), r) ==> r == parsed_float(parse)(v@)
}

/// What a caller's float printer makes of the bits of a number.
pub type FloatText = spec_fn(u64) -> Seq<u8>;

/// Whether `format` can give `text` back for the bits of a number.
pub open spec fn may_format_as<F: Fn(u64) -> Vec<u8>>(format: F, bits: u64, text: Seq<u8>) -> bool {
    exists|v: Vec<u8>| v@ == text && #[trigger] call_ensures(format, (bits,), v)
}

/// What `format` gives back for the bits of a number.
pub open spec fn formatted_float<F: Fn(u64) -> Vec<u8>>(format: F) -> FloatText {
    |bits: u64| choose|text: Seq<u8>| #[trigger] may_format_as(format, bits, text)
}

/// A float printer can be called on every number, and the text that it gives
/// back depends on the number alone.
pub open spec fn is_float_printer<F: Fn(u64) -> Vec<u8>>(format: F) -> bool {
    &&& forall|bits: u64| call_requires(format, (bits,))
    &&& forall|bits: u64, v: Vec<u8>| #[trigger]
        call_ensures(format, (bits,), v) ==> v@ == formatted_float(format)(bits)
}

} // verus!
