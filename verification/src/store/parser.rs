//! The decoder that fills the flat store.

use vstd::prelude::*;
use vstd::pervasive::unreached;
use vstd::slice::slice_to_vec;
use vstd::utf8::decode_utf8;
use vstd::utf8::valid_utf8;
use crate::bertterm::BertTerm;
use crate::bertterm::Term;
use crate::bigint::BigInt;
use crate::consts::ATOM_EXT;
use crate::consts::ATOM_UTF8_EXT;
use crate::consts::BINARY_EXT;
use crate::consts::DISK_LOG_TERM_MAGIC;
use crate::consts::FLOAT_EXT;
use crate::consts::INTEGER_EXT;
use crate::consts::LARGE_BIG_EXT;
use crate::consts::LARGE_TUPLE_EXT;
use crate::consts::LIST_EXT;
use crate::consts::MAP_EXT;
use crate::consts::NEW_FLOAT_EXT;
use crate::consts::NIL_EXT;
use crate::consts::SMALL_ATOM_EXT;
use crate::consts::SMALL_ATOM_UTF8_EXT;
use crate::consts::SMALL_BIG_EXT;
use crate::consts::SMALL_INTEGER_EXT;
use crate::consts::SMALL_TUPLE_EXT;
use crate::consts::STRING_EXT;
use crate::error::BertError;
use crate::float::is_float_parser;
use crate::float::parsed_float;
use crate::grammar::Parsed;
use crate::grammar::atom_at;
use crate::grammar::atom_utf8_at;
use crate::grammar::bert1_at;
use crate::grammar::bert2_at;
use crate::grammar::bigint_at;
use crate::grammar::binary_at;
use crate::grammar::disk_log_at;
use crate::grammar::disk_log_magic_at;
use crate::grammar::disk_log_opened_status_at;
use crate::grammar::disk_log_term_at;
use crate::grammar::integer_at;
use crate::grammar::lemma_pairs_at_error;
use crate::grammar::lemma_terms_at_advances;
use crate::grammar::lemma_terms_at_error;
use crate::grammar::list_at;
use crate::grammar::magic_at;
use crate::grammar::map_at;
use crate::grammar::new_float_at;
use crate::grammar::old_float_at;
use crate::grammar::pairs_at;
use crate::grammar::small_integer_at;
use crate::grammar::string_at;
use crate::grammar::take_be;
use crate::grammar::term_at;
use crate::grammar::terms_at;
use crate::grammar::tuple_at;
use crate::grammar::varint_at;
use crate::parser::checked;
use crate::store::terms::Tag;
use crate::store::terms::Terms;
use crate::store::terms::begins_with;
use crate::store::terms::lemma_pairs_in_bounds;
use crate::store::terms::lemma_proplist_push;
use crate::store::terms::lemma_pairs_in_stable;
use crate::store::terms::lemma_simple_record;
use crate::store::terms::lemma_term_in_bounds;
use crate::store::terms::lemma_term_in_stable;
use crate::store::terms::lemma_terms_in_bounds;
use crate::store::terms::lemma_terms_in_stable;
use crate::store::terms::pairs_in;
use crate::store::terms::payload;
use crate::store::terms::same_records;
use crate::store::terms::term_in;
use crate::store::terms::terms_in;
use crate::store::terms::value_of;
use crate::text::latin1_to_string;
use crate::text::lemma_ascii_is_utf8;
use crate::text::lemma_latin1_utf8_len;
use crate::text::utf8_to_string;

verus! {

/// The state of a store: its records and its buffer.
pub struct Stored {
    pub tags: Seq<Tag>,
    pub bytes: Seq<u8>,
}

impl Terms {
    /// The records and the buffer of the store.
    pub open spec fn state(&self) -> Stored {
        Stored { tags: self.tags@, bytes: self.bytes@ }
    }
}

/// What was in the store `before` is still in the store `after`, and the
/// buffer has grown by at most two bytes for each byte that was read from
/// `start` up to `end`.
pub open spec fn kept(before: Stored, after: Stored, start: int, end: int) -> bool {
    &&& before.tags.len() <= after.tags.len()
    &&& same_records(before.tags, after.tags, 0, before.tags.len() as int)
    &&& begins_with(after.bytes, before.bytes)
    &&& after.bytes.len() <= before.bytes.len() + 2 * (end - start)
}

/// Whether a store whose buffer holds `held` bytes has room for every term
/// that can be read from `pos` on: places in the buffer are 32-bit numbers.
pub open spec fn has_room(held: int, s: Seq<u8>, pos: int) -> bool {
    held + 2 * (s.len() - pos) <= u32::MAX
}

/// `r`, the position `end` and the store `after` are what the grammar says
/// of a read that began at `start` with the store `before`: the term that
/// was read stands in the records that were added. After a failure the
/// position is somewhere from `start` on, and the records that were added
/// are left where they are.
pub open spec fn stored(
    parsed: Parsed<Term>,
    s: Seq<u8>,
    start: int,
    r: Result<(), BertError>,
    end: int,
    before: Stored,
    after: Stored,
) -> bool {
    &&& start <= end <= s.len()
    &&& kept(before, after, start, end)
    &&& match parsed {
        Ok((term, p)) => r is Ok && end == p && term_in(
            after.tags,
            after.bytes,
            before.tags.len() as int,
        ) == Some((term, after.tags.len() as int)),
        Err(e) => r matches Err(err) && err == e,
    }
}

/// `r`, the position `end` and the store `after` are what the grammar says
/// of the next term of a stream. At the end of the stream nothing is read.
/// A failure ends the stream: the position goes to the end of the buffer, so
/// that nothing is read from then on.
pub open spec fn stored_next(
    parsed: Option<Parsed<Term>>,
    s: Seq<u8>,
    start: int,
    r: Option<Result<(), BertError>>,
    end: int,
    before: Stored,
    after: Stored,
) -> bool {
    match parsed {
        None => r is None && end == start && after == before,
        Some(p) => r matches Some(res) && stored(p, s, start, res, end, before, after) && (res
            is Err ==> end == s.len()),
    }
}

/// What is kept over two steps is kept over both.
proof fn lemma_kept_trans(a: Stored, b: Stored, c: Stored, start: int, mid: int, end: int)
    requires
        kept(a, b, start, mid),
        kept(b, c, mid, end),
    ensures
        kept(a, c, start, end),
{
    assert(c.bytes.subrange(0, a.bytes.len() as int) =~= c.bytes.subrange(
        0,
        b.bytes.len() as int,
    ).subrange(0, a.bytes.len() as int));
}

/// One more record behind those of the store, for a term without elements.
proof fn lemma_scalar_stored(before: Stored, after: Stored, tag: Tag, term: Term)
    requires
        after.tags == before.tags.push(tag),
        begins_with(after.bytes, before.bytes),
        term_in(seq![tag], after.bytes, 0) == Some((term, 1int)),
    ensures
        term_in(after.tags, after.bytes, before.tags.len() as int) == Some(
            (term, after.tags.len() as int),
        ),
        same_records(before.tags, after.tags, 0, before.tags.len() as int),
{
    let i = before.tags.len() as int;
    assert(after.tags[i] == tag);
    assert(seq![tag][0] == tag);
    match tag {
        Tag::List(len) => {
            lemma_terms_in_bounds(seq![tag], after.bytes, 1, len as nat);
            assert(len == 0);
            assert(terms_in(after.tags, after.bytes, i + 1, 0) == Some(
                (Seq::<Term>::empty(), i + 1),
            ));
        },
        Tag::Tuple(len) => {
            lemma_terms_in_bounds(seq![tag], after.bytes, 1, len as nat);
            assert(len == 0);
            assert(terms_in(after.tags, after.bytes, i + 1, 0) == Some(
                (Seq::<Term>::empty(), i + 1),
            ));
        },
        Tag::Proplist(len) => {
            lemma_terms_in_bounds(seq![tag], after.bytes, 1, len as nat);
            assert(len == 0);
            assert(terms_in(after.tags, after.bytes, i + 1, 0) == Some(
                (Seq::<Term>::empty(), i + 1),
            ));
        },
        Tag::Mapping(len) => {
            lemma_pairs_in_bounds(seq![tag], after.bytes, 1, len as nat);
            assert(len == 0);
            assert(pairs_in(after.tags, after.bytes, i + 1, 0) == Some(
                ((Seq::<Term>::empty(), Seq::<Term>::empty()), i + 1),
            ));
        },
        _ => {},
    }
}

/// A buffer, a read position in it, and the routines that decode terms into
/// a store.
pub struct BertParser {
    cursor: crate::parser::BertParser,
}

impl BertParser {
    /// The buffer.
    pub closed spec fn bytes(&self) -> Seq<u8> {
        self.cursor.bytes()
    }

    /// The read position: how many bytes of the buffer were consumed.
    pub closed spec fn position(&self) -> int {
        self.cursor.position()
    }

    /// A parser at the start of `contents`.
    pub fn new(contents: Vec<u8>) -> (parser: BertParser)
        ensures
            parser.bytes() == contents@,
            parser.position() == 0,
    {
        BertParser { cursor: crate::parser::BertParser::new(contents) }
    }

    /// Appends to the store the record of a term without elements, whose
    /// payload was read from `start` up to the present position.
    fn push_scalar(terms: &mut Terms, tag: Tag, Ghost(term): Ghost<Term>)
        requires
            term_in(seq![tag], old(terms).bytes@, 0) == Some((term, 1int)),
        ensures
            final(terms).bytes@ == old(terms).bytes@,
            final(terms).tags@ == old(terms).tags@.push(tag),
            term_in(final(terms).tags@, final(terms).bytes@, old(terms).tags@.len() as int)
                == Some((term, final(terms).tags@.len() as int)),
            same_records(old(terms).tags@, final(terms).tags@, 0, old(terms).tags@.len() as int),
    {
        terms.push_tag(tag);
        proof {
            assert(terms.bytes@.subrange(0, terms.bytes@.len() as int) =~= terms.bytes@);
            lemma_scalar_stored(old(terms).state(), terms.state(), tag, term);
        }
    }

    /// Decodes the payload of a small integer into the store.
    fn small_integer(&mut self, terms: &mut Terms) -> (r: Result<(), BertError>)
        ensures
            final(self).bytes() == old(self).bytes(),
            stored(
                small_integer_at(old(self).bytes(), old(self).position()),
                old(self).bytes(),
                old(self).position(),
                r,
                final(self).position(),
                old(terms).state(),
                final(terms).state(),
            ),
    {
        let ghost before = terms.state();
        assert(before.bytes.subrange(0, before.bytes.len() as int) =~= before.bytes);
        let _ = self.cursor.eof();
        let b = self.cursor.eat_u8()?;
        Self::push_scalar(terms, Tag::Int(b as i32), Ghost(Term::Int(b as i32)));
        Ok(())
    }

    /// Decodes the payload of an integer into the store.
    fn integer(&mut self, terms: &mut Terms) -> (r: Result<(), BertError>)
        ensures
            final(self).bytes() == old(self).bytes(),
            stored(
                integer_at(old(self).bytes(), old(self).position()),
                old(self).bytes(),
                old(self).position(),
                r,
                final(self).position(),
                old(terms).state(),
                final(terms).state(),
            ),
    {
        let ghost before = terms.state();
        assert(before.bytes.subrange(0, before.bytes.len() as int) =~= before.bytes);
        let _ = self.cursor.eof();
        let n = self.cursor.eat_i32_be()?;
        Self::push_scalar(terms, Tag::Int(n), Ghost(Term::Int(n)));
        Ok(())
    }

    /// Decodes the payload of a new-style float into the store.
    fn new_float(&mut self, terms: &mut Terms) -> (r: Result<(), BertError>)
        ensures
            final(self).bytes() == old(self).bytes(),
            stored(
                new_float_at(old(self).bytes(), old(self).position()),
                old(self).bytes(),
                old(self).position(),
                r,
                final(self).position(),
                old(terms).state(),
                final(terms).state(),
            ),
    {
        let ghost before = terms.state();
        assert(before.bytes.subrange(0, before.bytes.len() as int) =~= before.bytes);
        let _ = self.cursor.eof();
        let bits = self.cursor.eat_u64_be()?;
        Self::push_scalar(terms, Tag::Float(bits), Ghost(Term::Float(bits)));
        Ok(())
    }

    /// Decodes the payload of an old-style float into the store.
    fn old_float<F: Fn(Vec<u8>) -> Option<u64>>(
        &mut self,
        terms: &mut Terms,
        parse_float: &F,
    ) -> (r: Result<(), BertError>)
        requires
            is_float_parser(*parse_float),
        ensures
            final(self).bytes() == old(self).bytes(),
            stored(
                old_float_at(old(self).bytes(), old(self).position(), parsed_float(*parse_float)),
                old(self).bytes(),
                old(self).position(),
                r,
                final(self).position(),
                old(terms).state(),
                final(terms).state(),
            ),
    {
        let ghost before = terms.state();
        assert(before.bytes.subrange(0, before.bytes.len() as int) =~= before.bytes);
        match self.cursor.old_float(parse_float) {
            Ok(BertTerm::Float(bits)) => {
                Self::push_scalar(terms, Tag::Float(bits), Ghost(Term::Float(bits)));
                Ok(())
            },
            Ok(_) => unreached(),
            Err(e) => Err(e),
        }
    }

    /// Decodes the payload of a big integer of `len` digits into the store.
    fn bigint(&mut self, len: u32, terms: &mut Terms) -> (r: Result<(), BertError>)
        ensures
            final(self).bytes() == old(self).bytes(),
            stored(
                bigint_at(old(self).bytes(), old(self).position(), len as int),
                old(self).bytes(),
                old(self).position(),
                r,
                final(self).position(),
                old(terms).state(),
                final(terms).state(),
            ),
    {
        let ghost before = terms.state();
        assert(before.bytes.subrange(0, before.bytes.len() as int) =~= before.bytes);
        match self.cursor.bigint(len as usize) {
            Ok(BertTerm::BigInt(n)) => {
                let ghost value = n@;
                Self::push_scalar(terms, Tag::BigInt(Box::new(n)), Ghost(Term::BigInt(value)));
                Ok(())
            },
            Ok(_) => unreached(),
            Err(e) => Err(e),
        }
    }

    /// Appends to the store a record that points at `payload`, which is
    /// appended to the buffer.
    fn push_payload(terms: &mut Terms, payload: &[u8], kind: u8) -> (tag: Ghost<Tag>)
        requires
            old(terms).bytes@.len() + payload@.len() <= u32::MAX,
            kind == ATOM_EXT ==> valid_utf8(payload@),
        ensures
            final(terms).bytes@ == old(terms).bytes@ + payload@,
            final(terms).tags@ == old(terms).tags@.push(tag@),
            same_records(old(terms).tags@, final(terms).tags@, 0, old(terms).tags@.len() as int),
            begins_with(final(terms).bytes@, old(terms).bytes@),
            term_in(final(terms).tags@, final(terms).bytes@, old(terms).tags@.len() as int)
                == Some(
                (
                    if kind == ATOM_EXT {
                        Term::Atom(decode_utf8(payload@))
                    } else if kind == STRING_EXT {
                        Term::String(payload@)
                    } else {
                        Term::Binary(payload@)
                    },
                    final(terms).tags@.len() as int,
                ),
            ),
    {
        let (off, len) = terms.push_bytes(payload);
        let tag = if kind == ATOM_EXT {
            Tag::Atom { off, len }
        } else if kind == STRING_EXT {
            Tag::String { off, len }
        } else {
            Tag::Binary { off, len }
        };
        let ghost pushed = tag;
        terms.push_tag(tag);
        proof {
            assert(terms.bytes@.subrange(0, old(terms).bytes@.len() as int) =~= old(terms).bytes@);
            assert(terms.tags@[old(terms).tags@.len() as int] == pushed);
        }
        Ghost(pushed)
    }

    /// Decodes the `len` bytes of a Latin-1 atom into the store, where the name
    /// stands in UTF-8.
    fn atom_with_length(&mut self, len: usize, terms: &mut Terms) -> (r: Result<(), BertError>)
        requires
            has_room(old(terms).bytes@.len() as int, old(self).bytes(), old(self).position()),
        ensures
            final(self).bytes() == old(self).bytes(),
            stored(
                atom_at(old(self).bytes(), old(self).position(), len as int),
                old(self).bytes(),
                old(self).position(),
                r,
                final(self).position(),
                old(terms).state(),
                final(terms).state(),
            ),
    {
        let ghost before = terms.state();
        assert(before.bytes.subrange(0, before.bytes.len() as int) =~= before.bytes);
        let _ = self.cursor.eof();
        let initial_pos = self.cursor.offset();
        let bytes: &[u8] = self.cursor.eat_slice(len)?;
        let mut is_ascii = true;
        let mut i: usize = 0;
        while i < bytes.len()
            invariant
                i <= bytes.len(),
                is_ascii == (forall|j: int| 0 <= j < i ==> bytes@[j] < 128),
            decreases bytes.len() - i,
        {
            if bytes[i] >= 128 {
                is_ascii = false;
            }
            i = i + 1;
        }
        // Atoms are ASCII in the overwhelming majority of cases: such bytes
        // are stored as they are.
        if is_ascii {
            proof {
                lemma_ascii_is_utf8(bytes@);
            }
            Self::push_payload(terms, bytes, ATOM_EXT);
            Ok(())
        } else {
            match latin1_to_string(bytes) {
                Some(name) => {
                    proof {
                        lemma_latin1_utf8_len(bytes@);
                        vstd::utf8::encode_utf8_valid_utf8(name@);
                        vstd::utf8::encode_utf8_decode_utf8(name@);
                    }
                    Self::push_payload(terms, name.as_str().as_bytes(), ATOM_EXT);
                    Ok(())
                },
                None => Err(BertError::InvalidLatin1Atom(initial_pos)),
            }
        }
    }

    /// Decodes the `len` bytes of a UTF-8 atom into the store.
    fn atom_utf8_with_length(&mut self, len: usize, terms: &mut Terms) -> (r: Result<
        (),
        BertError,
    >)
        requires
            has_room(old(terms).bytes@.len() as int, old(self).bytes(), old(self).position()),
        ensures
            final(self).bytes() == old(self).bytes(),
            stored(
                atom_utf8_at(old(self).bytes(), old(self).position(), len as int),
                old(self).bytes(),
                old(self).position(),
                r,
                final(self).position(),
                old(terms).state(),
                final(terms).state(),
            ),
    {
        let ghost before = terms.state();
        assert(before.bytes.subrange(0, before.bytes.len() as int) =~= before.bytes);
        let _ = self.cursor.eof();
        let initial_pos = self.cursor.offset();
        let buf: &[u8] = self.cursor.eat_slice(len)?;
        // The bytes must be UTF-8.
        if utf8_to_string(slice_to_vec(buf)).is_none() {
            return Err(BertError::InvalidUTF8Atom(initial_pos));
        }
        Self::push_payload(terms, buf, ATOM_EXT);
        Ok(())
    }

    /// Decodes the payload of a string into the store.
    fn string(&mut self, terms: &mut Terms) -> (r: Result<(), BertError>)
        requires
            has_room(old(terms).bytes@.len() as int, old(self).bytes(), old(self).position()),
        ensures
            final(self).bytes() == old(self).bytes(),
            stored(
                string_at(old(self).bytes(), old(self).position()),
                old(self).bytes(),
                old(self).position(),
                r,
                final(self).position(),
                old(terms).state(),
                final(terms).state(),
            ),
    {
        let ghost before = terms.state();
        assert(before.bytes.subrange(0, before.bytes.len() as int) =~= before.bytes);
        let _ = self.cursor.eof();
        let len = self.cursor.eat_u16_be()? as usize;
        let bytes = self.cursor.eat_slice(len)?;
        Self::push_payload(terms, bytes, STRING_EXT);
        Ok(())
    }

    /// Decodes the payload of a binary into the store.
    fn binary(&mut self, terms: &mut Terms) -> (r: Result<(), BertError>)
        requires
            has_room(old(terms).bytes@.len() as int, old(self).bytes(), old(self).position()),
        ensures
            final(self).bytes() == old(self).bytes(),
            stored(
                binary_at(old(self).bytes(), old(self).position()),
                old(self).bytes(),
                old(self).position(),
                r,
                final(self).position(),
                old(terms).state(),
                final(terms).state(),
            ),
    {
        let ghost before = terms.state();
        assert(before.bytes.subrange(0, before.bytes.len() as int) =~= before.bytes);
        let _ = self.cursor.eof();
        let len = self.cursor.eat_u32_be()? as usize;
        let bytes = self.cursor.eat_slice(len)?;
        Self::push_payload(terms, bytes, BINARY_EXT);
        Ok(())
    }

    /// Puts the empty list into the store.
    fn nil(&mut self, terms: &mut Terms) -> (r: Result<(), BertError>)
        ensures
            final(self).bytes() == old(self).bytes(),
            stored(
                Ok::<(Term, int), BertError>((Term::Nil, old(self).position())),
                old(self).bytes(),
                old(self).position(),
                r,
                final(self).position(),
                old(terms).state(),
                final(terms).state(),
            ),
    {
        let ghost before = terms.state();
        assert(before.bytes.subrange(0, before.bytes.len() as int) =~= before.bytes);
        let _ = self.cursor.eof();
        proof {
            assert(terms_in(seq![Tag::List(0)], terms.bytes@, 1, 0) == Some(
                (Seq::<Term>::empty(), 1int),
            ));
        }
        Self::push_scalar(terms, Tag::List(0), Ghost(Term::Nil));
        Ok(())
    }

    /// Decodes `count` terms that stand one behind the other, and tells
    /// whether all of them are properties.
    fn terms<F: Fn(Vec<u8>) -> Option<u64>>(
        &mut self,
        count: u32,
        terms: &mut Terms,
        parse_float: &F,
    ) -> (r: Result<bool, BertError>)
        requires
            is_float_parser(*parse_float),
            has_room(old(terms).bytes@.len() as int, old(self).bytes(), old(self).position()),
        ensures
            final(self).bytes() == old(self).bytes(),
            old(self).position() <= final(self).position() <= old(self).bytes().len(),
            kept(
                old(terms).state(),
                final(terms).state(),
                old(self).position(),
                final(self).position(),
            ),
            match terms_at(
                old(self).bytes(),
                old(self).position(),
                count as nat,
                parsed_float(*parse_float),
            ) {
                Ok((elems, end)) => r matches Ok(all) && final(self).position() == end && terms_in(
                    final(terms).tags@,
                    final(terms).bytes@,
                    old(terms).tags@.len() as int,
                    count as nat,
                ) == Some((elems, final(terms).tags@.len() as int)) && all == Term::List(
                    elems,
                ).is_proplist(),
                Err(e) => r matches Err(err) && err == e,
            },
        decreases old(self).bytes().len() - old(self).position(), 1int,
    {
        let _ = self.cursor.eof();
        let ghost s = self.bytes();
        let ghost start = self.position();
        let ghost before = terms.state();
        let ghost first = before.tags.len() as int;
        let ghost float_of = parsed_float(*parse_float);
        let ghost done: Seq<Term> = Seq::empty();
        let mut all = true;
        let mut i: u32 = 0;
        assert(before.bytes.subrange(0, before.bytes.len() as int) =~= before.bytes);
        while i < count
            invariant
                is_float_parser(*parse_float),
                float_of == parsed_float(*parse_float),
                self.bytes() == s,
                s == old(self).bytes(),
                start == old(self).position(),
                before == old(terms).state(),
                0 <= start <= self.position() <= s.len(),
                has_room(before.bytes.len() as int, s, start),
                first == before.tags.len(),
                kept(before, terms.state(), start, self.position()),
                i <= count,
                terms_at(s, start, i as nat, float_of) == Ok::<(Seq<Term>, int), BertError>(
                    (done, self.position()),
                ),
                terms_in(terms.tags@, terms.bytes@, first, i as nat) == Some(
                    (done, terms.tags@.len() as int),
                ),
                all == Term::List(done).is_proplist(),
            decreases count - i,
        {
            let ghost item_before = terms.state();
            let ghost item_start = self.position();
            let index = terms.tags.len();
            match self.bert_term(terms, parse_float) {
                Ok(()) => {
                    let ghost item = value_of(terms.term(index as int));
                    proof {
                        lemma_kept_trans(
                            before,
                            item_before,
                            terms.state(),
                            start,
                            item_start,
                            self.position(),
                        );
                        lemma_terms_in_stable(
                            item_before.tags,
                            item_before.bytes,
                            terms.tags@,
                            terms.bytes@,
                            first,
                            i as nat,
                        );
                        lemma_proplist_push(done, item);
                        done = done.push(item);
                    }
                    let is_entry = terms.is_property(index);
                    all = all && is_entry;
                },
                Err(e) => {
                    proof {
                        lemma_kept_trans(
                            before,
                            item_before,
                            terms.state(),
                            start,
                            item_start,
                            self.position(),
                        );
                        lemma_terms_at_error(s, start, (i + 1) as nat, count as nat, float_of);
                    }
                    return Err(e);
                },
            }
            i = i + 1;
        }
        Ok(all)
    }

    /// Decodes the `len` elements of a tuple into the store, behind the record
    /// of the tuple.
    fn tuple<F: Fn(Vec<u8>) -> Option<u64>>(
        &mut self,
        len: u32,
        terms: &mut Terms,
        parse_float: &F,
    ) -> (r: Result<(), BertError>)
        requires
            is_float_parser(*parse_float),
            has_room(old(terms).bytes@.len() as int, old(self).bytes(), old(self).position()),
        ensures
            final(self).bytes() == old(self).bytes(),
            stored(
                tuple_at(
                    old(self).bytes(),
                    old(self).position(),
                    len as nat,
                    parsed_float(*parse_float),
                ),
                old(self).bytes(),
                old(self).position(),
                r,
                final(self).position(),
                old(terms).state(),
                final(terms).state(),
            ),
        decreases old(self).bytes().len() - old(self).position(), 2int,
    {
        let ghost before = terms.state();
        assert(before.bytes.subrange(0, before.bytes.len() as int) =~= before.bytes);
        terms.push_tag(Tag::Tuple(len));
        let ghost pushed = terms.state();
        let r = self.terms(len, terms, parse_float);
        proof {
            lemma_kept_trans(
                before,
                pushed,
                terms.state(),
                old(self).position(),
                old(self).position(),
                self.position(),
            );
            assert(terms.tags@[before.tags.len() as int] == pushed.tags[before.tags.len() as int]);
        }
        match r {
            Ok(_) => Ok(()),
            Err(e) => Err(e),
        }
    }

    /// Decodes the payload of a list into the store. The record of the list
    /// counts the tail as one more element unless the tail is the empty list,
    /// whose record is taken away again.
    fn list<F: Fn(Vec<u8>) -> Option<u64>>(&mut self, terms: &mut Terms, parse_float: &F) -> (r:
        Result<(), BertError>)
        requires
            is_float_parser(*parse_float),
            has_room(old(terms).bytes@.len() as int, old(self).bytes(), old(self).position()),
        ensures
            final(self).bytes() == old(self).bytes(),
            stored(
                list_at(old(self).bytes(), old(self).position(), parsed_float(*parse_float)),
                old(self).bytes(),
                old(self).position(),
                r,
                final(self).position(),
                old(terms).state(),
                final(terms).state(),
            ),
        decreases old(self).bytes().len() - old(self).position(), 1int,
    {
        let ghost s = self.bytes();
        let ghost float_of = parsed_float(*parse_float);
        let ghost before = terms.state();
        assert(before.bytes.subrange(0, before.bytes.len() as int) =~= before.bytes);
        let _ = self.cursor.eof();
        let len = self.cursor.eat_u32_be()?;
        let ghost elems_start = self.position();
        let list_index = terms.tags.len();
        // The record is put right once the tail is known.
        terms.push_tag(Tag::List(len));
        let ghost pushed = terms.state();
        let all = match self.terms(len, terms, parse_float) {
            Ok(all) => all,
            Err(e) => {
                proof {
                    lemma_kept_trans(
                        before,
                        pushed,
                        terms.state(),
                        old(self).position(),
                        elems_start,
                        self.position(),
                    );
                }
                return Err(e);
            },
        };
        let ghost elems_state = terms.state();
        let ghost elems_end = self.position();
        let ghost elems = value_of(terms_in(terms.tags@, terms.bytes@, list_index + 1, len as nat));
        proof {
            lemma_kept_trans(
                before,
                pushed,
                elems_state,
                old(self).position(),
                elems_start,
                elems_end,
            );
            lemma_terms_at_advances(s, elems_start, len as nat, float_of);
        }
        let tail_index = terms.tags.len();
        if let Err(e) = self.bert_term(terms, parse_float) {
            proof {
                lemma_kept_trans(
                    before,
                    elems_state,
                    terms.state(),
                    old(self).position(),
                    elems_end,
                    self.position(),
                );
            }
            return Err(e);
        }
        let ghost tail_state = terms.state();
        let ghost tail = value_of(terms.term(tail_index as int));
        proof {
            lemma_kept_trans(
                before,
                elems_state,
                tail_state,
                old(self).position(),
                elems_end,
                self.position(),
            );
            lemma_term_in_bounds(tail_state.tags, tail_state.bytes, tail_index as int);
            lemma_simple_record(tail_state.tags, tail_state.bytes, tail_index as int);
        }
        let tail_is_nil = match terms.tags[tail_index] {
            Tag::List(n) => n == 0,
            _ => false,
        };
        if tail_is_nil {
            terms.pop_tag();
            let tag = if all {
                Tag::Proplist(len)
            } else {
                Tag::List(len)
            };
            terms.tags.set(list_index, tag);
            proof {
                lemma_terms_in_stable(
                    elems_state.tags,
                    elems_state.bytes,
                    terms.tags@,
                    terms.bytes@,
                    list_index + 1,
                    len as nat,
                );
                if len == 0 {
                    assert(elems =~= Seq::<Term>::empty());
                }
            }
        } else {
            let tail_is_entry = terms.is_property(tail_index);
            let tag = if all && tail_is_entry {
                Tag::Proplist(len + 1)
            } else {
                Tag::List(len + 1)
            };
            terms.tags.set(list_index, tag);
            proof {
                lemma_terms_in_stable(
                    elems_state.tags,
                    elems_state.bytes,
                    terms.tags@,
                    terms.bytes@,
                    list_index + 1,
                    len as nat,
                );
                assert(terms.bytes@.subrange(0, terms.bytes@.len() as int) =~= terms.bytes@);
                lemma_term_in_stable(
                    tail_state.tags,
                    tail_state.bytes,
                    terms.tags@,
                    terms.bytes@,
                    tail_index as int,
                );
                lemma_proplist_push(elems, tail);
            }
        }
        Ok(())
    }

    /// Decodes the payload of a map into the store: behind the record of the
    /// map, each key and its value.
    fn map<F: Fn(Vec<u8>) -> Option<u64>>(&mut self, terms: &mut Terms, parse_float: &F) -> (r:
        Result<(), BertError>)
        requires
            is_float_parser(*parse_float),
            has_room(old(terms).bytes@.len() as int, old(self).bytes(), old(self).position()),
        ensures
            final(self).bytes() == old(self).bytes(),
            stored(
                map_at(old(self).bytes(), old(self).position(), parsed_float(*parse_float)),
                old(self).bytes(),
                old(self).position(),
                r,
                final(self).position(),
                old(terms).state(),
                final(terms).state(),
            ),
        decreases old(self).bytes().len() - old(self).position(), 1int,
    {
        let ghost s = self.bytes();
        let ghost float_of = parsed_float(*parse_float);
        let ghost before = terms.state();
        assert(before.bytes.subrange(0, before.bytes.len() as int) =~= before.bytes);
        let _ = self.cursor.eof();
        let len = self.cursor.eat_u32_be()?;
        let ghost start = self.position();
        let ghost map_index = terms.tags@.len() as int;
        terms.push_tag(Tag::Mapping(len));
        let ghost keys: Seq<Term> = Seq::empty();
        let ghost vals: Seq<Term> = Seq::empty();
        let mut i: u32 = 0;
        while i < len
            invariant
                is_float_parser(*parse_float),
                float_of == parsed_float(*parse_float),
                self.bytes() == s,
                s == old(self).bytes(),
                start == old(self).position() + 4,
                take_be(s, old(self).position(), 4) == Ok::<(nat, int), BertError>(
                    (len as nat, start),
                ),
                0 <= start <= self.position() <= s.len(),
                has_room(before.bytes.len() as int, s, old(self).position()),
                before == old(terms).state(),
                map_index == before.tags.len(),
                terms.tags@.len() > map_index,
                terms.tags@[map_index] == Tag::Mapping(len),
                kept(before, terms.state(), old(self).position(), self.position()),
                i <= len,
                pairs_at(s, start, i as nat, float_of) == Ok::<
                    ((Seq<Term>, Seq<Term>), int),
                    BertError,
                >(((keys, vals), self.position())),
                pairs_in(terms.tags@, terms.bytes@, map_index + 1, i as nat) == Some(
                    ((keys, vals), terms.tags@.len() as int),
                ),
            decreases len - i,
        {
            let ghost key_before = terms.state();
            let ghost key_start = self.position();
            if let Err(e) = self.bert_term(terms, parse_float) {
                proof {
                    lemma_kept_trans(
                        before,
                        key_before,
                        terms.state(),
                        old(self).position(),
                        key_start,
                        self.position(),
                    );
                    lemma_pairs_at_error(s, start, (i + 1) as nat, len as nat, float_of);
                }
                return Err(e);
            }
            let ghost val_before = terms.state();
            let ghost val_start = self.position();
            let ghost key = value_of(terms.term(key_before.tags.len() as int));
            proof {
                lemma_kept_trans(
                    before,
                    key_before,
                    val_before,
                    old(self).position(),
                    key_start,
                    val_start,
                );
            }
            if let Err(e) = self.bert_term(terms, parse_float) {
                proof {
                    lemma_kept_trans(
                        before,
                        val_before,
                        terms.state(),
                        old(self).position(),
                        val_start,
                        self.position(),
                    );
                    lemma_pairs_at_error(s, start, (i + 1) as nat, len as nat, float_of);
                }
                return Err(e);
            }
            proof {
                let val = value_of(terms.term(val_before.tags.len() as int));
                lemma_kept_trans(
                    before,
                    val_before,
                    terms.state(),
                    old(self).position(),
                    val_start,
                    self.position(),
                );
                lemma_kept_trans(
                    key_before,
                    val_before,
                    terms.state(),
                    key_start,
                    val_start,
                    self.position(),
                );
                lemma_pairs_in_stable(
                    key_before.tags,
                    key_before.bytes,
                    terms.tags@,
                    terms.bytes@,
                    map_index + 1,
                    i as nat,
                );
                lemma_term_in_stable(
                    val_before.tags,
                    val_before.bytes,
                    terms.tags@,
                    terms.bytes@,
                    key_before.tags.len() as int,
                );
                keys = keys.push(key);
                vals = vals.push(val);
            }
            i = i + 1;
        }
        Ok(())
    }

    /// Decodes one term into the store: a tag byte, then what the tag asks
    /// for.
    fn bert_term<F: Fn(Vec<u8>) -> Option<u64>>(&mut self, terms: &mut Terms, parse_float: &F)
        -> (r: Result<(), BertError>)
        requires
            is_float_parser(*parse_float),
            has_room(old(terms).bytes@.len() as int, old(self).bytes(), old(self).position()),
        ensures
            final(self).bytes() == old(self).bytes(),
            stored(
                term_at(old(self).bytes(), old(self).position(), parsed_float(*parse_float)),
                old(self).bytes(),
                old(self).position(),
                r,
                final(self).position(),
                old(terms).state(),
                final(terms).state(),
            ),
        decreases old(self).bytes().len() - old(self).position(), 0int,
    {
        let ghost before = terms.state();
        assert(before.bytes.subrange(0, before.bytes.len() as int) =~= before.bytes);
        let initial_pos = self.cursor.offset();
        let tag = self.cursor.eat_u8()?;
        if tag == SMALL_INTEGER_EXT {
            self.small_integer(terms)
        } else if tag == INTEGER_EXT {
            self.integer(terms)
        } else if tag == FLOAT_EXT {
            self.old_float(terms, parse_float)
        } else if tag == NEW_FLOAT_EXT {
            self.new_float(terms)
        } else if tag == ATOM_EXT {
            let len = self.cursor.eat_u16_be()? as usize;
            self.atom_with_length(len, terms)
        } else if tag == SMALL_ATOM_EXT {
            let len = self.cursor.eat_u8()? as usize;
            self.atom_with_length(len, terms)
        } else if tag == ATOM_UTF8_EXT {
            let len = self.cursor.eat_u16_be()? as usize;
            self.atom_utf8_with_length(len, terms)
        } else if tag == SMALL_ATOM_UTF8_EXT {
            let len = self.cursor.eat_u8()? as usize;
            self.atom_utf8_with_length(len, terms)
        } else if tag == SMALL_TUPLE_EXT {
            let len = self.cursor.eat_u8()? as u32;
            self.tuple(len, terms, parse_float)
        } else if tag == LARGE_TUPLE_EXT {
            let len = self.cursor.eat_u32_be()?;
            self.tuple(len, terms, parse_float)
        } else if tag == NIL_EXT {
            self.nil(terms)
        } else if tag == LIST_EXT {
            self.list(terms, parse_float)
        } else if tag == STRING_EXT {
            self.string(terms)
        } else if tag == BINARY_EXT {
            self.binary(terms)
        } else if tag == SMALL_BIG_EXT {
            let len = self.cursor.eat_u8()? as u32;
            self.bigint(len, terms)
        } else if tag == LARGE_BIG_EXT {
            let len = self.cursor.eat_u32_be()?;
            self.bigint(len, terms)
        } else if tag == MAP_EXT {
            self.map(terms, parse_float)
        } else {
            Err(BertError::InvalidTag(initial_pos, tag))
        }
    }

    /// Whether the whole buffer was consumed.
    pub fn eof(&self) -> (b: bool)
        ensures
            b == (self.position() >= self.bytes().len()),
            0 <= self.position() <= self.bytes().len(),
    {
        self.cursor.eof()
    }

    /// Consumes the magic byte that stands in front of a term.
    fn magic_number(&mut self) -> (r: Result<(), BertError>)
        ensures
            final(self).bytes() == old(self).bytes(),
            checked(
                magic_at(old(self).bytes(), old(self).position()),
                old(self).bytes(),
                old(self).position(),
                r,
                final(self).position(),
            ),
    {
        self.cursor.magic_number()
    }

    /// Consumes the first word of a disk log.
    pub fn disk_log_magic(&mut self) -> (r: Result<(), BertError>)
        ensures
            final(self).bytes() == old(self).bytes(),
            checked(
                disk_log_magic_at(old(self).bytes(), old(self).position()),
                old(self).bytes(),
                old(self).position(),
                r,
                final(self).position(),
            ),
    {
        self.cursor.disk_log_magic()
    }

    /// Consumes the status word of a disk log.
    pub fn disk_log_opened_status(&mut self) -> (r: Result<(), BertError>)
        ensures
            final(self).bytes() == old(self).bytes(),
            checked(
                disk_log_opened_status_at(old(self).bytes(), old(self).position()),
                old(self).bytes(),
                old(self).position(),
                r,
                final(self).position(),
            ),
    {
        self.cursor.disk_log_opened_status()
    }

    /// Decodes one record of a disk log into the store. The length of the
    /// record is read and not looked at.
    pub fn disk_log_term<F: Fn(Vec<u8>) -> Option<u64>>(
        &mut self,
        terms: &mut Terms,
        parse_float: &F,
    ) -> (r: Result<(), BertError>)
        requires
            is_float_parser(*parse_float),
            has_room(old(terms).bytes@.len() as int, old(self).bytes(), old(self).position()),
        ensures
            final(self).bytes() == old(self).bytes(),
            stored(
                disk_log_term_at(
                    old(self).bytes(),
                    old(self).position(),
                    parsed_float(*parse_float),
                ),
                old(self).bytes(),
                old(self).position(),
                r,
                final(self).position(),
                old(terms).state(),
                final(terms).state(),
            ),
    {
        let ghost before = terms.state();
        assert(before.bytes.subrange(0, before.bytes.len() as int) =~= before.bytes);
        let _ = self.cursor.eof();
        let _len = self.cursor.eat_u32_be()?;
        let magic_pos = self.cursor.offset();
        let magic = self.cursor.eat_u32_be()?;
        if magic != DISK_LOG_TERM_MAGIC {
            return Err(BertError::InvalidDiskLogTermMagic { offset: magic_pos, actual: magic });
        }
        self.magic_number()?;
        self.bert_term(terms, parse_float)
    }

    /// Consumes a length prefix: up to eight bytes of seven bits each, the
    /// low bits first, the last byte below 128.
    pub fn parse_varint(&mut self) -> (r: Result<u64, BertError>)
        ensures
            final(self).bytes() == old(self).bytes(),
            old(self).position() <= final(self).position() <= old(self).bytes().len(),
            match varint_at(old(self).bytes(), old(self).position()) {
                Ok((n, end)) => r == Ok::<u64, BertError>(n) && final(self).position() == end,
                Err(e) => r == Err::<u64, BertError>(e),
            },
    {
        self.cursor.parse_varint()
    }

    /// Decodes into the store the next term of a buffer that holds a magic
    /// byte and a term; does nothing at the end of the buffer.
    pub fn bert1_next<F: Fn(Vec<u8>) -> Option<u64>>(
        &mut self,
        terms: &mut Terms,
        parse_float: &F,
    ) -> (r: Option<Result<(), BertError>>)
        requires
            is_float_parser(*parse_float),
            has_room(old(terms).bytes@.len() as int, old(self).bytes(), old(self).position()),
        ensures
            final(self).bytes() == old(self).bytes(),
            stored_next(
                bert1_at(old(self).bytes(), old(self).position(), parsed_float(*parse_float)),
                old(self).bytes(),
                old(self).position(),
                r,
                final(self).position(),
                old(terms).state(),
                final(terms).state(),
            ),
    {
        let ghost before = terms.state();
        assert(before.bytes.subrange(0, before.bytes.len() as int) =~= before.bytes);
        if self.eof() {
            return None;
        }
        if let Err(e) = self.magic_number() {
            self.cursor.skip_to_end();
            return Some(Err(e));
        }
        let r = self.bert_term(terms, parse_float);
        if let Err(_) = &r {
            self.cursor.skip_to_end();
        }
        Some(r)
    }

    /// Decodes into the store the next term of a stream of records, each a
    /// length prefix, a magic byte and a term; does nothing at the end of
    /// the buffer. The length is read and not looked at.
    pub fn bert2_next<F: Fn(Vec<u8>) -> Option<u64>>(
        &mut self,
        terms: &mut Terms,
        parse_float: &F,
    ) -> (r: Option<Result<(), BertError>>)
        requires
            is_float_parser(*parse_float),
            has_room(old(terms).bytes@.len() as int, old(self).bytes(), old(self).position()),
        ensures
            final(self).bytes() == old(self).bytes(),
            stored_next(
                bert2_at(old(self).bytes(), old(self).position(), parsed_float(*parse_float)),
                old(self).bytes(),
                old(self).position(),
                r,
                final(self).position(),
                old(terms).state(),
                final(terms).state(),
            ),
    {
        let ghost before = terms.state();
        assert(before.bytes.subrange(0, before.bytes.len() as int) =~= before.bytes);
        if self.eof() {
            return None;
        }
        if let Err(e) = self.parse_varint() {
            self.cursor.skip_to_end();
            return Some(Err(e));
        }
        if let Err(e) = self.magic_number() {
            self.cursor.skip_to_end();
            return Some(Err(e));
        }
        let r = self.bert_term(terms, parse_float);
        if let Err(_) = &r {
            self.cursor.skip_to_end();
        }
        Some(r)
    }

    /// Decodes into the store the next term of a disk log; does nothing at
    /// the end of the buffer. At the start of the buffer the log's magic
    /// word and status word are consumed first.
    pub fn disk_log_next<F: Fn(Vec<u8>) -> Option<u64>>(
        &mut self,
        terms: &mut Terms,
        parse_float: &F,
    ) -> (r: Option<Result<(), BertError>>)
        requires
            is_float_parser(*parse_float),
            has_room(old(terms).bytes@.len() as int, old(self).bytes(), old(self).position()),
        ensures
            final(self).bytes() == old(self).bytes(),
            stored_next(
                disk_log_at(old(self).bytes(), old(self).position(), parsed_float(*parse_float)),
                old(self).bytes(),
                old(self).position(),
                r,
                final(self).position(),
                old(terms).state(),
                final(terms).state(),
            ),
    {
        let ghost before = terms.state();
        assert(before.bytes.subrange(0, before.bytes.len() as int) =~= before.bytes);
        if self.eof() {
            return None;
        }
        if self.cursor.offset() == 0 {
            if let Err(e) = self.disk_log_magic() {
                self.cursor.skip_to_end();
                return Some(Err(e));
            }
            if let Err(e) = self.disk_log_opened_status() {
                self.cursor.skip_to_end();
                return Some(Err(e));
            }
        }
        let r = self.disk_log_term(terms, parse_float);
        if let Err(_) = &r {
            self.cursor.skip_to_end();
        }
        Some(r)
    }
}

} // verus!
