//! A stream of records: a length prefix, a magic byte, then the term.

use vstd::prelude::*;
use crate::bertterm::BertTerm;
use crate::error::BertError;
use crate::float::is_float_parser;
use crate::float::parsed_float;
use crate::grammar::bert2_at;
use crate::parser::BertParser;
use crate::parser::framed;

verus! {

/// Reads a stream of terms, each behind a length prefix and a magic byte.
pub struct Bert2Parser {
    basic_parser: BertParser,
    failed: bool,
}

impl Bert2Parser {
    /// The buffer.
    pub closed spec fn bytes(&self) -> Seq<u8> {
        self.basic_parser.bytes()
    }

    /// How many bytes of the buffer were consumed.
    pub closed spec fn position(&self) -> int {
        self.basic_parser.position()
    }

    /// Whether a term could not be read. Nothing is read after that.
    pub closed spec fn has_failed(&self) -> bool {
        self.failed
    }

    /// A parser at the start of `bytes`.
    pub fn new(bytes: Vec<u8>) -> (parser: Self)
        ensures
            parser.bytes() == bytes@,
            parser.position() == 0,
            !parser.has_failed(),
    {
        Self { basic_parser: BertParser::new(bytes), failed: false }
    }

    /// The next term of the buffer, or nothing at its end. Once a term could
    /// not be read, there is no next term. `parse_float` turns the text of
    /// an old-style float into the bits of the number.
    pub fn next<F: Fn(Vec<u8>) -> Option<u64>>(&mut self, parse_float: &F) -> (r: Option<
        Result<BertTerm, BertError>,
    >)
        requires
            is_float_parser(*parse_float),
        ensures
            final(self).bytes() == old(self).bytes(),
            old(self).has_failed() ==> r is None && final(self).has_failed()
                && final(self).position() == old(self).position(),
            !old(self).has_failed() ==> framed(
                bert2_at(old(self).bytes(), old(self).position(), parsed_float(*parse_float)),
                old(self).bytes(),
                old(self).position(),
                r,
                final(self).position(),
            ) && final(self).has_failed() == (r matches Some(Err(_))),
    {
        if self.failed {
            return None;
        }
        let r = self.basic_parser.bert2_next(parse_float);
        if let Some(Err(_)) = &r {
            self.failed = true;
        }
        r
    }
}

} // verus!
