//! The decoder: a bounds-checked read head over a buffer, and one routine
//! for each kind of term.

use vstd::prelude::*;
use vstd::slice::slice_subrange;
use vstd::slice::slice_to_vec;
use crate::bert_parser::is_non_zero;
use crate::bert_parser::is_zero;
use crate::bertterm::BertTerm;
use crate::bertterm::Term;
use crate::bertterm::lemma_terms_view;
use crate::bertterm::terms_view;
use crate::bigint::BigInt;
use crate::consts::ATOM_EXT;
use crate::consts::ATOM_UTF8_EXT;
use crate::consts::BERT_MAGIC_NUMBER;
use crate::consts::BINARY_EXT;
use crate::consts::DISK_LOG_CLOSED;
use crate::consts::DISK_LOG_MAGIC;
use crate::consts::DISK_LOG_OPENED;
use crate::consts::DISK_LOG_TERM_MAGIC;
use crate::consts::FLOAT_EXT;
use crate::consts::INTEGER_EXT;
use crate::consts::LARGE_BIG_EXT;
use crate::consts::LARGE_TUPLE_EXT;
use crate::consts::LIST_EXT;
use crate::consts::MAP_EXT;
use crate::consts::NEW_FLOAT_EXT;
use crate::consts::NIL_EXT;
use crate::consts::SMALL_ATOM_EXT;
use crate::consts::SMALL_ATOM_UTF8_EXT;
use crate::consts::SMALL_BIG_EXT;
use crate::consts::SMALL_INTEGER_EXT;
use crate::consts::SMALL_TUPLE_EXT;
use crate::consts::STRING_EXT;
use crate::error::BertError;
use crate::float::is_float_parser;
use crate::float::parsed_float;
use crate::grammar::Parsed;
use crate::grammar::atom_at;
use crate::grammar::atom_utf8_at;
use crate::grammar::bert1_at;
use crate::grammar::bert2_at;
use crate::grammar::bigint_at;
use crate::grammar::binary_at;
use crate::grammar::disk_log_at;
use crate::grammar::disk_log_magic_at;
use crate::grammar::disk_log_opened_status_at;
use crate::grammar::disk_log_term_at;
use crate::grammar::integer_at;
use crate::grammar::lemma_pairs_at_error;
use crate::grammar::lemma_terms_at_error;
use crate::grammar::list_at;
use crate::grammar::magic_at;
use crate::grammar::map_at;
use crate::grammar::new_float_at;
use crate::grammar::old_float_at;
use crate::grammar::pairs_at;
use crate::grammar::pow128;
use crate::grammar::run_len;
use crate::grammar::small_integer_at;
use crate::grammar::string_at;
use crate::grammar::take_be;
use crate::grammar::take_slice;
use crate::grammar::take_u8;
use crate::grammar::term_at;
use crate::grammar::terms_at;
use crate::grammar::tuple_at;
use crate::grammar::varint_at;
use crate::grammar::varint_from;
use crate::text::latin1_to_string;
use crate::text::lemma_ascii_is_utf8;
use crate::text::utf8_to_string;
use crate::wire::read_i32_be;
use crate::wire::read_u16_be;
use crate::wire::read_u32_be;
use crate::wire::read_u64_be;
use crate::wire::signed32;

verus! {

/// `r` and the position `end` are what the grammar says of a read that began at
/// `start`. After a failure the position is somewhere from `start` on.
pub open spec fn decoded(
    parsed: Parsed<Term>,
    s: Seq<u8>,
    start: int,
    r: Result<BertTerm, BertError>,
    end: int,
) -> bool {
    &&& start <= end <= s.len()
    &&& match parsed {
        Ok((term, p)) => r matches Ok(t) && t@ == term && end == p,
        Err(e) => r matches Err(err) && err == e,
    }
}

/// `r` and the position `end` are what the grammar says of the next term of
/// a stream, read from `start` on. At the end of the stream nothing is read.
/// A failure ends the stream: the position goes to the end of the buffer, so
/// that nothing is read from then on.
pub open spec fn framed(
    parsed: Option<Parsed<Term>>,
    s: Seq<u8>,
    start: int,
    r: Option<Result<BertTerm, BertError>>,
    end: int,
) -> bool {
    match parsed {
        None => r is None && end == start,
        Some(p) => r matches Some(res) && decoded(p, s, start, res, end) && (res is Err ==> end
            == s.len()),
    }
}

/// `r` and the position `end` are what the grammar says of a piece of
/// framing, read from `start` on. After a failure the position is somewhere
/// from `start` on.
pub open spec fn checked(
    parsed: Parsed<()>,
    s: Seq<u8>,
    start: int,
    r: Result<(), BertError>,
    end: int,
) -> bool {
    &&& start <= end <= s.len()
    &&& match parsed {
        Ok((_, p)) => r is Ok && end == p,
        Err(e) => r matches Err(err) && err == e,
    }
}

/// One more group of seven bits, put above those that a length prefix has
/// gathered so far.
pub proof fn lemma_varint_step(acc: u64, b: u8, count: u64)
    requires
        count < 8,
        acc < pow128(count as nat),
    ensures
        acc | (((b as u64) & 0x7f) << (7 * count)) == acc + (b % 128) as nat * pow128(
            count as nat,
        ),
        acc + (b % 128) as nat * pow128(count as nat) < pow128((count + 1) as nat),
        (b & 0x80 == 0) == (b < 128),
{
    let unit: u64 = 1u64 << (7 * count);
    assert(unit == pow128(count as nat)) by {
        reveal_with_fuel(pow128, 9);
        assert(1u64 << 0 == 1) by (bit_vector);
        assert(1u64 << 7 == 128) by (bit_vector);
        assert(1u64 << 14 == 16384) by (bit_vector);
        assert(1u64 << 21 == 2097152) by (bit_vector);
        assert(1u64 << 28 == 268435456) by (bit_vector);
        assert(1u64 << 35 == 34359738368) by (bit_vector);
        assert(1u64 << 42 == 4398046511104) by (bit_vector);
        assert(1u64 << 49 == 562949953421312) by (bit_vector);
    }
    let group: u64 = (b as u64) & 0x7f;
    assert(group == b % 128 && (b & 0x80 == 0) == (b < 128)) by (bit_vector)
        requires
            group == (b as u64) & 0x7f,
    ;
    assert(acc | (group << (7 * count)) == acc + group * unit) by (bit_vector)
        requires
            count < 8,
            unit == 1u64 << (7 * count),
            acc < unit,
            group < 128,
    ;
    assert(acc + group * unit < 128 * unit) by (nonlinear_arith)
        requires
            acc < unit,
            group < 128,
    ;
}

/// `terms_view` goes along with `push`.
pub proof fn lemma_terms_view_push(terms: Seq<BertTerm>, term: BertTerm)
    ensures
        terms_view(terms.push(term)) == terms_view(terms).push(term@),
{
    lemma_terms_view(terms);
    lemma_terms_view(terms.push(term));
    assert(terms_view(terms.push(term)) =~= terms_view(terms).push(term@));
}

/// A buffer and a read position in it.
#[derive(Debug)]
pub struct BertParser {
    contents: Vec<u8>,
    pos: usize,
}

impl BertParser {
    #[verifier::type_invariant]
    spec fn in_bounds(self) -> bool {
        self.pos <= self.contents.len()
    }

    /// The buffer.
    pub closed spec fn bytes(&self) -> Seq<u8> {
        self.contents@
    }

    /// The read position: how many bytes of the buffer were consumed.
    pub closed spec fn position(&self) -> int {
        self.pos as int
    }

    /// A parser at the start of `contents`.
    pub fn new(contents: Vec<u8>) -> (parser: BertParser)
        ensures
            parser.bytes() == contents@,
            parser.position() == 0,
    {
        BertParser { contents, pos: 0 }
    }

    /// The read position.
    pub fn offset(&self) -> (pos: usize)
        ensures
            pos == self.position(),
            pos <= self.bytes().len(),
    {
        proof {
            use_type_invariant(self);
        }
        self.pos
    }

    /// Gives up what is left of the buffer: the read position goes to its
    /// end.
    pub fn skip_to_end(&mut self)
        ensures
            final(self).bytes() == old(self).bytes(),
            final(self).position() == old(self).bytes().len(),
            old(self).position() <= final(self).position(),
    {
        proof {
            use_type_invariant(&*self);
        }
        self.pos = self.contents.len();
    }

    /// Whether the whole buffer was consumed.
    pub fn eof(&self) -> (b: bool)
        ensures
            b == (self.position() >= self.bytes().len()),
            0 <= self.position() <= self.bytes().len(),
    {
        proof {
            use_type_invariant(self);
        }
        self.pos >= self.contents.len()
    }

    /// The byte at the read position, which stays where it is.
    pub fn peek(&self) -> (r: Result<u8, BertError>)
        ensures
            match take_u8(self.bytes(), self.position()) {
                Ok((b, _)) => r == Ok::<u8, BertError>(b),
                Err(e) => r == Err::<u8, BertError>(e),
            },
    {
        if self.eof() {
            Err(BertError::NotEnoughData { offset: self.pos, needed: 1, available: 0 })
        } else {
            Ok(self.contents[self.pos])
        }
    }

    /// Whether `n` more bytes can be read.
    pub fn can_read(&self, n: usize) -> (b: bool)
        ensures
            b == (self.position() + n <= self.bytes().len()),
    {
        proof {
            use_type_invariant(self);
        }
        n <= self.contents.len() - self.pos
    }

    /// Consumes `len` bytes and hands them out.
    pub fn eat_slice(&mut self, len: usize) -> (r: Result<&[u8], BertError>)
        ensures
            final(self).bytes() == old(self).bytes(),
            match take_slice(old(self).bytes(), old(self).position(), len as int) {
                Ok((bytes, end)) => r matches Ok(slice) && slice@ == bytes && final(self).position()
                    == end,
                Err(e) => r matches Err(err) && err == e && final(self).position()
                    == old(self).position(),
            },
    {
        proof {
            use_type_invariant(&*self);
        }
        if !self.can_read(len) {
            return Err(
                BertError::NotEnoughData {
                    offset: self.pos,
                    needed: len,
                    available: self.contents.len() - self.pos,
                },
            );
        }
        let slice = slice_subrange(self.contents.as_slice(), self.pos, self.pos + len);
        self.pos += len;
        Ok(slice)
    }

    /// Consumes one byte.
    pub fn eat_u8(&mut self) -> (r: Result<u8, BertError>)
        ensures
            final(self).bytes() == old(self).bytes(),
            match take_u8(old(self).bytes(), old(self).position()) {
                Ok((b, end)) => r == Ok::<u8, BertError>(b) && final(self).position() == end,
                Err(e) => r == Err::<u8, BertError>(e) && final(self).position()
                    == old(self).position(),
            },
    {
        let b = self.peek()?;
        proof {
            use_type_invariant(&*self);
        }
        self.pos += 1;
        Ok(b)
    }

    /// Consumes one byte and hands it out as the character with that code.
    pub fn eat_char(&mut self) -> (r: Result<char, BertError>)
        ensures
            final(self).bytes() == old(self).bytes(),
            match take_u8(old(self).bytes(), old(self).position()) {
                Ok((b, end)) => r == Ok::<char, BertError>(b as char) && final(self).position()
                    == end,
                Err(e) => r == Err::<char, BertError>(e) && final(self).position()
                    == old(self).position(),
            },
    {
        let b = self.eat_u8()?;
        Ok(b as char)
    }

    /// Consumes two bytes: an unsigned big-endian number.
    pub fn eat_u16_be(&mut self) -> (r: Result<u16, BertError>)
        ensures
            final(self).bytes() == old(self).bytes(),
            match take_be(old(self).bytes(), old(self).position(), 2) {
                Ok((n, end)) => r matches Ok(v) && v == n && final(self).position() == end,
                Err(e) => r == Err::<u16, BertError>(e) && final(self).position()
                    == old(self).position(),
            },
    {
        let bytes = self.eat_slice(2)?;
        assert(bytes@.subrange(0, 2) =~= bytes@);
        Ok(read_u16_be(bytes))
    }

    /// Consumes four bytes: a big-endian number in two's complement.
    pub fn eat_i32_be(&mut self) -> (r: Result<i32, BertError>)
        ensures
            final(self).bytes() == old(self).bytes(),
            match take_be(old(self).bytes(), old(self).position(), 4) {
                Ok((n, end)) => r matches Ok(v) && v == signed32(n) && final(self).position()
                    == end,
                Err(e) => r == Err::<i32, BertError>(e) && final(self).position()
                    == old(self).position(),
            },
    {
        let bytes = self.eat_slice(4)?;
        assert(bytes@.subrange(0, 4) =~= bytes@);
        Ok(read_i32_be(bytes))
    }

    /// Consumes four bytes: an unsigned big-endian number.
    pub fn eat_u32_be(&mut self) -> (r: Result<u32, BertError>)
        ensures
            final(self).bytes() == old(self).bytes(),
            match take_be(old(self).bytes(), old(self).position(), 4) {
                Ok((n, end)) => r matches Ok(v) && v == n && final(self).position() == end,
                Err(e) => r == Err::<u32, BertError>(e) && final(self).position()
                    == old(self).position(),
            },
    {
        let bytes = self.eat_slice(4)?;
        assert(bytes@.subrange(0, 4) =~= bytes@);
        Ok(read_u32_be(bytes))
    }

    /// Consumes eight bytes: an unsigned big-endian number.
    pub fn eat_u64_be(&mut self) -> (r: Result<u64, BertError>)
        ensures
            final(self).bytes() == old(self).bytes(),
            match take_be(old(self).bytes(), old(self).position(), 8) {
                Ok((n, end)) => r matches Ok(v) && v == n && final(self).position() == end,
                Err(e) => r == Err::<u64, BertError>(e) && final(self).position()
                    == old(self).position(),
            },
    {
        let bytes = self.eat_slice(8)?;
        assert(bytes@.subrange(0, 8) =~= bytes@);
        Ok(read_u64_be(bytes))
    }

    /// Decodes the payload of a small integer: one unsigned byte.
    pub fn small_integer(&mut self) -> (r: Result<BertTerm, BertError>)
        ensures
            final(self).bytes() == old(self).bytes(),
            decoded(
                small_integer_at(old(self).bytes(), old(self).position()),
                old(self).bytes(),
                old(self).position(),
                r,
                final(self).position(),
            ),
    {
        proof {
            use_type_invariant(&*self);
        }
        let b = self.eat_u8()?;
        Ok(BertTerm::Int(b as i32))
    }

    /// Decodes the payload of an integer: four bytes, big-endian, signed.
    pub fn integer(&mut self) -> (r: Result<BertTerm, BertError>)
        ensures
            final(self).bytes() == old(self).bytes(),
            decoded(
                integer_at(old(self).bytes(), old(self).position()),
                old(self).bytes(),
                old(self).position(),
                r,
                final(self).position(),
            ),
    {
        proof {
            use_type_invariant(&*self);
        }
        let n = self.eat_i32_be()?;
        Ok(BertTerm::Int(n))
    }

    /// Decodes the payload of an old-style float: its text, up to the first
    /// zero byte or the end of the buffer, and the zero bytes that pad it.
    /// `parse_float` turns the text into the bits of the number.
    pub fn old_float<F: Fn(Vec<u8>) -> Option<u64>>(&mut self, parse_float: &F) -> (r: Result<
        BertTerm,
        BertError,
    >)
        requires
            is_float_parser(*parse_float),
        ensures
            final(self).bytes() == old(self).bytes(),
            decoded(
                old_float_at(old(self).bytes(), old(self).position(), parsed_float(*parse_float)),
                old(self).bytes(),
                old(self).position(),
                r,
                final(self).position(),
            ),
    {
        proof {
            use_type_invariant(&*self);
        }
        let initial_pos = self.pos;
        let mut text: Vec<u8> = Vec::new();
        loop
            invariant
                self.contents@ == old(self).contents@,
                initial_pos == old(self).pos,
                initial_pos <= self.pos <= self.contents.len(),
                text@ == self.contents@.subrange(initial_pos as int, self.pos as int),
                run_len(self.contents@, initial_pos as int, false) == self.pos - initial_pos
                    + run_len(self.contents@, self.pos as int, false),
            ensures
                run_len(self.contents@, self.pos as int, false) == 0,
            decreases self.contents.len() - self.pos,
        {
            if self.pos >= self.contents.len() {
                break ;
            }
            let b = self.contents[self.pos];
            if !is_non_zero(b) {
                break ;
            }
            text.push(b);
            self.pos += 1;
            assert(text@ =~= self.contents@.subrange(initial_pos as int, self.pos as int));
        }
        let text_end = self.pos;
        loop
            invariant
                self.contents@ == old(self).contents@,
                text_end <= self.pos <= self.contents.len(),
                run_len(self.contents@, text_end as int, true) == self.pos - text_end + run_len(
                    self.contents@,
                    self.pos as int,
                    true,
                ),
            ensures
                run_len(self.contents@, self.pos as int, true) == 0,
            decreases self.contents.len() - self.pos,
        {
            if self.pos >= self.contents.len() {
                break ;
            }
            if !is_zero(self.contents[self.pos]) {
                break ;
            }
            self.pos += 1;
        }
        match parse_float(text) {
            Some(bits) => Ok(BertTerm::Float(bits)),
            None => Err(BertError::InvalidFloat(initial_pos)),
        }
    }

    /// Decodes the payload of a new-style float: the eight bytes of its bits.
    pub fn new_float(&mut self) -> (r: Result<BertTerm, BertError>)
        ensures
            final(self).bytes() == old(self).bytes(),
            decoded(
                new_float_at(old(self).bytes(), old(self).position()),
                old(self).bytes(),
                old(self).position(),
                r,
                final(self).position(),
            ),
    {
        proof {
            use_type_invariant(&*self);
        }
        let raw_bytes = self.eat_u64_be()?;
        Ok(BertTerm::Float(raw_bytes))
    }

    /// Decodes the `len` bytes of a Latin-1 atom. Bytes that are all ASCII
    /// are taken as they stand; others are decoded as Latin-1.
    pub fn atom(&mut self, len: usize) -> (r: Result<BertTerm, BertError>)
        ensures
            final(self).bytes() == old(self).bytes(),
            decoded(
                atom_at(old(self).bytes(), old(self).position(), len as int),
                old(self).bytes(),
                old(self).position(),
                r,
                final(self).position(),
            ),
    {
        proof {
            use_type_invariant(&*self);
        }
        let initial_pos = self.pos;
        let bytes: Vec<u8> = slice_to_vec(self.eat_slice(len)?);
        let mut is_ascii = true;
        let mut i: usize = 0;
        while i < bytes.len()
            invariant
                i <= bytes.len(),
                is_ascii == (forall|j: int| 0 <= j < i ==> bytes@[j] < 128),
            decreases bytes.len() - i,
        {
            if bytes[i] >= 128 {
                is_ascii = false;
            }
            i = i + 1;
        }
        let decoded_name = if is_ascii {
            proof {
                lemma_ascii_is_utf8(bytes@);
            }
            utf8_to_string(bytes)
        } else {
            latin1_to_string(bytes.as_slice())
        };
        match decoded_name {
            Some(name) => Ok(BertTerm::Atom(name)),
            None => Err(BertError::InvalidLatin1Atom(initial_pos)),
        }
    }

    /// Decodes the `len` bytes of a UTF-8 atom.
    pub fn atom_utf8(&mut self, len: usize) -> (r: Result<BertTerm, BertError>)
        ensures
            final(self).bytes() == old(self).bytes(),
            decoded(
                atom_utf8_at(old(self).bytes(), old(self).position(), len as int),
                old(self).bytes(),
                old(self).position(),
                r,
                final(self).position(),
            ),
    {
        proof {
            use_type_invariant(&*self);
        }
        let initial_pos = self.pos;
        let buf: Vec<u8> = slice_to_vec(self.eat_slice(len)?);
        match utf8_to_string(buf) {
            Some(name) => Ok(BertTerm::Atom(name)),
            None => Err(BertError::InvalidUTF8Atom(initial_pos)),
        }
    }

    /// Decodes the payload of a string: a length of two bytes and the bytes.
    pub fn string(&mut self) -> (r: Result<BertTerm, BertError>)
        ensures
            final(self).bytes() == old(self).bytes(),
            decoded(
                string_at(old(self).bytes(), old(self).position()),
                old(self).bytes(),
                old(self).position(),
                r,
                final(self).position(),
            ),
    {
        proof {
            use_type_invariant(&*self);
        }
        let len = self.eat_u16_be()? as usize;
        let bytes: Vec<u8> = slice_to_vec(self.eat_slice(len)?);
        Ok(BertTerm::String(bytes))
    }

    /// Decodes the payload of a binary: a length of four bytes and the bytes.
    pub fn binary(&mut self) -> (r: Result<BertTerm, BertError>)
        ensures
            final(self).bytes() == old(self).bytes(),
            decoded(
                binary_at(old(self).bytes(), old(self).position()),
                old(self).bytes(),
                old(self).position(),
                r,
                final(self).position(),
            ),
    {
        proof {
            use_type_invariant(&*self);
        }
        let len = self.eat_u32_be()? as usize;
        let bytes: Vec<u8> = slice_to_vec(self.eat_slice(len)?);
        Ok(BertTerm::Binary(bytes))
    }

    /// Decodes the payload of a big integer of `len` digits: a sign byte and
    /// the digits in base 256, least significant first.
    pub fn bigint(&mut self, len: usize) -> (r: Result<BertTerm, BertError>)
        ensures
            final(self).bytes() == old(self).bytes(),
            decoded(
                bigint_at(old(self).bytes(), old(self).position(), len as int),
                old(self).bytes(),
                old(self).position(),
                r,
                final(self).position(),
            ),
    {
        proof {
            use_type_invariant(&*self);
        }
        let sign = self.eat_u8()?;
        let ghost start = self.pos as int;
        let mut digits: Vec<u8> = Vec::new();
        let mut i: usize = 0;
        while i < len
            invariant
                self.contents@ == old(self).contents@,
                start == old(self).pos + 1,
                i <= len,
                self.pos == start + i,
                self.pos <= self.contents.len(),
                digits@ == self.contents@.subrange(start, start + i),
            decreases len - i,
        {
            let d = self.eat_u8()?;
            digits.push(d);
            i = i + 1;
            assert(digits@ =~= self.contents@.subrange(start, start + i));
        }
        Ok(BertTerm::BigInt(BigInt::from_bytes_le(sign == 1, digits.as_slice())))
    }

    /// Decodes the `len` elements of a tuple.
    pub fn tuple<F: Fn(Vec<u8>) -> Option<u64>>(&mut self, len: usize, parse_float: &F) -> (r:
        Result<BertTerm, BertError>)
        requires
            is_float_parser(*parse_float),
        ensures
            final(self).bytes() == old(self).bytes(),
            decoded(
                tuple_at(
                    old(self).bytes(),
                    old(self).position(),
                    len as nat,
                    parsed_float(*parse_float),
                ),
                old(self).bytes(),
                old(self).position(),
                r,
                final(self).position(),
            ),
        decreases old(self).bytes().len() - old(self).position(), 2int,
    {
        let terms = self.terms(len, parse_float)?;
        Ok(BertTerm::Tuple(terms))
    }

    /// Decodes `count` terms that stand one behind the other.
    pub fn terms<F: Fn(Vec<u8>) -> Option<u64>>(&mut self, count: usize, parse_float: &F) -> (r:
        Result<Vec<BertTerm>, BertError>)
        requires
            is_float_parser(*parse_float),
        ensures
            final(self).bytes() == old(self).bytes(),
            old(self).position() <= final(self).position() <= old(self).bytes().len(),
            match terms_at(
                old(self).bytes(),
                old(self).position(),
                count as nat,
                parsed_float(*parse_float),
            ) {
                Ok((terms, end)) => r matches Ok(ts) && terms_view(ts@) == terms
                    && final(self).position() == end,
                Err(e) => r matches Err(err) && err == e,
            },
        decreases old(self).bytes().len() - old(self).position(), 1int,
    {
        proof {
            use_type_invariant(&*self);
        }
        let ghost s = self.contents@;
        let ghost start = self.pos as int;
        let ghost float_of = parsed_float(*parse_float);
        let mut terms: Vec<BertTerm> = Vec::new();
        let mut i: usize = 0;
        assert(terms_view(terms@) =~= Seq::<Term>::empty());
        while i < count
            invariant
                is_float_parser(*parse_float),
                float_of == parsed_float(*parse_float),
                self.contents@ == s,
                s == old(self).contents@,
                start == old(self).pos,
                i <= count,
                start <= self.pos <= s.len(),
                terms_at(s, start, i as nat, float_of) == Ok::<(Seq<Term>, int), BertError>(
                    (terms_view(terms@), self.pos as int),
                ),
            decreases count - i,
        {
            let ghost before = terms@;
            match self.bert_term(parse_float) {
                Ok(term) => {
                    proof {
                        lemma_terms_view_push(before, term);
                    }
                    terms.push(term);
                },
                Err(e) => {
                    proof {
                        lemma_terms_at_error(s, start, (i + 1) as nat, count as nat, float_of);
                    }
                    return Err(e);
                },
            }
            i = i + 1;
        }
        Ok(terms)
    }

    /// Decodes the payload of a list: a length of four bytes, the elements
    /// and a tail. An empty-list tail is dropped; any other tail becomes the
    /// last element.
    pub fn list<F: Fn(Vec<u8>) -> Option<u64>>(&mut self, parse_float: &F) -> (r: Result<
        BertTerm,
        BertError,
    >)
        requires
            is_float_parser(*parse_float),
        ensures
            final(self).bytes() == old(self).bytes(),
            decoded(
                list_at(old(self).bytes(), old(self).position(), parsed_float(*parse_float)),
                old(self).bytes(),
                old(self).position(),
                r,
                final(self).position(),
            ),
        decreases old(self).bytes().len() - old(self).position(), 1int,
    {
        proof {
            use_type_invariant(&*self);
        }
        let len = self.eat_u32_be()?;
        let mut terms = self.terms(len as usize, parse_float)?;
        let ghost before = terms@;
        let tail = self.bert_term(parse_float)?;
        match tail {
            BertTerm::Nil => (),
            last_term => {
                proof {
                    lemma_terms_view_push(before, last_term);
                }
                terms.push(last_term);
            },
        }
        Ok(BertTerm::List(terms))
    }

    /// Decodes the payload of a map: a number of pairs in four bytes, then
    /// each key with its value.
    pub fn map<F: Fn(Vec<u8>) -> Option<u64>>(&mut self, parse_float: &F) -> (r: Result<
        BertTerm,
        BertError,
    >)
        requires
            is_float_parser(*parse_float),
        ensures
            final(self).bytes() == old(self).bytes(),
            decoded(
                map_at(old(self).bytes(), old(self).position(), parsed_float(*parse_float)),
                old(self).bytes(),
                old(self).position(),
                r,
                final(self).position(),
            ),
        decreases old(self).bytes().len() - old(self).position(), 1int,
    {
        proof {
            use_type_invariant(&*self);
        }
        let len = self.eat_u32_be()? as usize;
        let ghost s = self.contents@;
        let ghost start = self.pos as int;
        let ghost float_of = parsed_float(*parse_float);
        let mut keys: Vec<BertTerm> = Vec::new();
        let mut vals: Vec<BertTerm> = Vec::new();
        let mut i: usize = 0;
        assert(terms_view(keys@) =~= Seq::<Term>::empty());
        assert(terms_view(vals@) =~= Seq::<Term>::empty());
        while i < len
            invariant
                is_float_parser(*parse_float),
                float_of == parsed_float(*parse_float),
                self.contents@ == s,
                s == old(self).contents@,
                start == old(self).pos + 4,
                take_be(s, old(self).pos as int, 4) == Ok::<(nat, int), BertError>(
                    (len as nat, start),
                ),
                i <= len,
                start <= self.pos <= s.len(),
                pairs_at(s, start, i as nat, float_of) == Ok::<
                    ((Seq<Term>, Seq<Term>), int),
                    BertError,
                >(((terms_view(keys@), terms_view(vals@)), self.pos as int)),
            decreases len - i,
        {
            let ghost keys_before = keys@;
            let ghost vals_before = vals@;
            match self.bert_term(parse_float) {
                Ok(key) => {
                    proof {
                        lemma_terms_view_push(keys_before, key);
                    }
                    keys.push(key);
                },
                Err(e) => {
                    proof {
                        lemma_pairs_at_error(s, start, (i + 1) as nat, len as nat, float_of);
                    }
                    return Err(e);
                },
            }
            match self.bert_term(parse_float) {
                Ok(val) => {
                    proof {
                        lemma_terms_view_push(vals_before, val);
                    }
                    vals.push(val);
                },
                Err(e) => {
                    proof {
                        lemma_pairs_at_error(s, start, (i + 1) as nat, len as nat, float_of);
                    }
                    return Err(e);
                },
            }
            i = i + 1;
        }
        Ok(BertTerm::Mapping(keys, vals))
    }

    /// Decodes one term: a tag byte, then what the tag asks for.
    pub fn bert_term<F: Fn(Vec<u8>) -> Option<u64>>(&mut self, parse_float: &F) -> (r: Result<
        BertTerm,
        BertError,
    >)
        requires
            is_float_parser(*parse_float),
        ensures
            final(self).bytes() == old(self).bytes(),
            decoded(
                term_at(old(self).bytes(), old(self).position(), parsed_float(*parse_float)),
                old(self).bytes(),
                old(self).position(),
                r,
                final(self).position(),
            ),
        decreases old(self).bytes().len() - old(self).position(), 0int,
    {
        proof {
            use_type_invariant(&*self);
        }
        let initial_pos = self.pos;
        let tag = self.eat_u8()?;
        if tag == SMALL_INTEGER_EXT {
            self.small_integer()
        } else if tag == INTEGER_EXT {
            self.integer()
        } else if tag == FLOAT_EXT {
            self.old_float(parse_float)
        } else if tag == NEW_FLOAT_EXT {
            self.new_float()
        } else if tag == ATOM_EXT {
            let len = self.eat_u16_be()? as usize;
            self.atom(len)
        } else if tag == SMALL_ATOM_EXT {
            let len = self.eat_u8()? as usize;
            self.atom(len)
        } else if tag == ATOM_UTF8_EXT {
            let len = self.eat_u16_be()? as usize;
            self.atom_utf8(len)
        } else if tag == SMALL_ATOM_UTF8_EXT {
            let len = self.eat_u8()? as usize;
            self.atom_utf8(len)
        } else if tag == SMALL_TUPLE_EXT {
            let len = self.eat_u8()? as usize;
            self.tuple(len, parse_float)
        } else if tag == LARGE_TUPLE_EXT {
            let len = self.eat_u32_be()? as usize;
            self.tuple(len, parse_float)
        } else if tag == NIL_EXT {
            Ok(BertTerm::Nil)
        } else if tag == LIST_EXT {
            self.list(parse_float)
        } else if tag == STRING_EXT {
            self.string()
        } else if tag == BINARY_EXT {
            self.binary()
        } else if tag == SMALL_BIG_EXT {
            let len = self.eat_u8()?;
            self.bigint(len as usize)
        } else if tag == LARGE_BIG_EXT {
            let len = self.eat_u32_be()?;
            self.bigint(len as usize)
        } else if tag == MAP_EXT {
            self.map(parse_float)
        } else {
            Err(BertError::InvalidTag(initial_pos, tag))
        }
    }

    /// Consumes the magic byte that stands in front of a term.
    pub fn magic_number(&mut self) -> (r: Result<(), BertError>)
        ensures
            final(self).bytes() == old(self).bytes(),
            checked(
                magic_at(old(self).bytes(), old(self).position()),
                old(self).bytes(),
                old(self).position(),
                r,
                final(self).position(),
            ),
    {
        proof {
            use_type_invariant(&*self);
        }
        let initial_pos = self.pos;
        let magic = self.eat_u8()?;
        if magic != BERT_MAGIC_NUMBER {
            return Err(BertError::InvalidMagicNumber { offset: initial_pos, actual: magic });
        }
        Ok(())
    }

    /// Consumes the first word of a disk log.
    pub fn disk_log_magic(&mut self) -> (r: Result<(), BertError>)
        ensures
            final(self).bytes() == old(self).bytes(),
            checked(
                disk_log_magic_at(old(self).bytes(), old(self).position()),
                old(self).bytes(),
                old(self).position(),
                r,
                final(self).position(),
            ),
    {
        proof {
            use_type_invariant(&*self);
        }
        let initial_pos = self.pos;
        let magic = self.eat_u32_be()?;
        if magic != DISK_LOG_MAGIC {
            return Err(BertError::InvalidDiskLogMagic { offset: initial_pos, actual: magic });
        }
        Ok(())
    }

    /// Consumes the status word of a disk log.
    pub fn disk_log_opened_status(&mut self) -> (r: Result<(), BertError>)
        ensures
            final(self).bytes() == old(self).bytes(),
            checked(
                disk_log_opened_status_at(old(self).bytes(), old(self).position()),
                old(self).bytes(),
                old(self).position(),
                r,
                final(self).position(),
            ),
    {
        proof {
            use_type_invariant(&*self);
        }
        let initial_pos = self.pos;
        let status = self.eat_u32_be()?;
        if status != DISK_LOG_OPENED && status != DISK_LOG_CLOSED {
            return Err(
                BertError::InvalidDiskLogOpenedStatus { offset: initial_pos, actual: status },
            );
        }
        Ok(())
    }

    /// Decodes one record of a disk log. The length of the record is read
    /// and not looked at.
    pub fn disk_log_term<F: Fn(Vec<u8>) -> Option<u64>>(&mut self, parse_float: &F) -> (r: Result<
        BertTerm,
        BertError,
    >)
        requires
            is_float_parser(*parse_float),
        ensures
            final(self).bytes() == old(self).bytes(),
            decoded(
                disk_log_term_at(
                    old(self).bytes(),
                    old(self).position(),
                    parsed_float(*parse_float),
                ),
                old(self).bytes(),
                old(self).position(),
                r,
                final(self).position(),
            ),
    {
        proof {
            use_type_invariant(&*self);
        }
        let _len = self.eat_u32_be()?;
        let magic_pos = self.pos;
        let magic = self.eat_u32_be()?;
        if magic != DISK_LOG_TERM_MAGIC {
            return Err(BertError::InvalidDiskLogTermMagic { offset: magic_pos, actual: magic });
        }
        self.magic_number()?;
        self.bert_term(parse_float)
    }

    /// Consumes a length prefix: up to eight bytes of seven bits each, the
    /// low bits first, the last byte below 128.
    pub fn parse_varint(&mut self) -> (r: Result<u64, BertError>)
        ensures
            final(self).bytes() == old(self).bytes(),
            old(self).position() <= final(self).position() <= old(self).bytes().len(),
            match varint_at(old(self).bytes(), old(self).position()) {
                Ok((n, end)) => r == Ok::<u64, BertError>(n) && final(self).position() == end,
                Err(e) => r == Err::<u64, BertError>(e),
            },
    {
        proof {
            use_type_invariant(&*self);
        }
        let start_pos = self.pos;
        let mut i: u64 = 0;
        let mut val: u64 = 0;
        loop
            invariant
                self.contents@ == old(self).contents@,
                start_pos == old(self).pos,
                start_pos <= self.pos <= self.contents.len(),
                i <= 8,
                val < pow128(i as nat),
                varint_at(self.contents@, start_pos as int) == varint_from(
                    self.contents@,
                    self.pos as int,
                    start_pos as int,
                    i as nat,
                    val as nat,
                ),
            decreases 8 - i,
        {
            if i >= 8 {
                return Err(BertError::VarintTooLarge(start_pos));
            }
            if self.pos >= self.contents.len() {
                return Ok(val);
            }
            let b = self.contents[self.pos];
            self.pos += 1;
            proof {
                lemma_varint_step(val, b, i);
            }
            val = val | (((b as u64) & 0x7f) << (7 * i));
            if b & 0x80 == 0 {
                return Ok(val);
            }
            i += 1;
        }
    }

    /// The next term of a buffer that holds a magic byte and a term, or
    /// nothing at the end of the buffer.
    pub fn bert1_next<F: Fn(Vec<u8>) -> Option<u64>>(&mut self, parse_float: &F) -> (r: Option<
        Result<BertTerm, BertError>,
    >)
        requires
            is_float_parser(*parse_float),
        ensures
            final(self).bytes() == old(self).bytes(),
            framed(
                bert1_at(old(self).bytes(), old(self).position(), parsed_float(*parse_float)),
                old(self).bytes(),
                old(self).position(),
                r,
                final(self).position(),
            ),
    {
        if self.eof() {
            return None;
        }
        if let Err(e) = self.magic_number() {
            self.skip_to_end();
            return Some(Err(e));
        }
        let r = self.bert_term(parse_float);
        if let Err(_) = &r {
            self.skip_to_end();
        }
        Some(r)
    }

    /// The next term of a stream of records, each a length prefix, a magic
    /// byte and a term, or nothing at the end of the buffer. The length is
    /// read and not looked at.
    pub fn bert2_next<F: Fn(Vec<u8>) -> Option<u64>>(&mut self, parse_float: &F) -> (r: Option<
        Result<BertTerm, BertError>,
    >)
        requires
            is_float_parser(*parse_float),
        ensures
            final(self).bytes() == old(self).bytes(),
            framed(
                bert2_at(old(self).bytes(), old(self).position(), parsed_float(*parse_float)),
                old(self).bytes(),
                old(self).position(),
                r,
                final(self).position(),
            ),
    {
        if self.eof() {
            return None;
        }
        if let Err(e) = self.parse_varint() {
            self.skip_to_end();
            return Some(Err(e));
        }
        if let Err(e) = self.magic_number() {
            self.skip_to_end();
            return Some(Err(e));
        }
        let r = self.bert_term(parse_float);
        if let Err(_) = &r {
            self.skip_to_end();
        }
        Some(r)
    }

    /// The next term of a disk log, or nothing at the end of the buffer. At
    /// the start of the buffer the log's magic word and status word are
    /// consumed first.
    pub fn disk_log_next<F: Fn(Vec<u8>) -> Option<u64>>(&mut self, parse_float: &F) -> (r: Option<
        Result<BertTerm, BertError>,
    >)
        requires
            is_float_parser(*parse_float),
        ensures
            final(self).bytes() == old(self).bytes(),
            framed(
                disk_log_at(old(self).bytes(), old(self).position(), parsed_float(*parse_float)),
                old(self).bytes(),
                old(self).position(),
                r,
                final(self).position(),
            ),
    {
        if self.eof() {
            return None;
        }
        if self.pos == 0 {
            if let Err(e) = self.disk_log_magic() {
                self.skip_to_end();
                return Some(Err(e));
            }
            if let Err(e) = self.disk_log_opened_status() {
                self.skip_to_end();
                return Some(Err(e));
            }
        }
        let r = self.disk_log_term(parse_float);
        if let Err(_) = &r {
            self.skip_to_end();
        }
        Some(r)
    }
}

} // verus!
