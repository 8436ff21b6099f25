//! Writing a term in the binary format.

use vstd::prelude::*;
use vstd::utf8::encode_utf8;
use crate::bertterm::BertTerm;
use crate::bertterm::Term;
use crate::bertterm::lemma_terms_view;
use crate::bertterm::terms_view;
use crate::bigint::wire_digits;
use crate::consts::ATOM_UTF8_EXT;
use crate::consts::BERT_MAGIC_NUMBER;
use crate::consts::BINARY_EXT;
use crate::consts::INTEGER_EXT;
use crate::consts::LARGE_BIG_EXT;
use crate::consts::LARGE_TUPLE_EXT;
use crate::consts::LIST_EXT;
use crate::consts::MAP_EXT;
use crate::consts::NEW_FLOAT_EXT;
use crate::consts::NIL_EXT;
use crate::consts::SMALL_BIG_EXT;
use crate::consts::SMALL_INTEGER_EXT;
use crate::consts::SMALL_TUPLE_EXT;
use crate::consts::STRING_EXT;
use crate::wire::be_bytes;
use crate::wire::push_all;
use crate::wire::unsigned32;
use crate::wire::write_i32_be;
use crate::wire::write_u16_be;
use crate::wire::write_u32_be;
use crate::wire::write_u64_be;

verus! {

/// A length as it stands in a field of two bytes: what is above is cut off.
pub open spec fn len16(len: nat) -> Seq<u8> {
    be_bytes(len % 0x1_0000, 2)
}

/// A length as it stands in a field of four bytes: what is above is cut off.
pub open spec fn len32(len: nat) -> Seq<u8> {
    be_bytes(len % 0x1_0000_0000, 4)
}

/// The tag and the length of something that has a small form, with a length
/// of one byte, and a large form, with a length of four bytes.
pub open spec fn sized_head(small: u8, large: u8, len: nat) -> Seq<u8> {
    if len < 256 {
        seq![small, len as u8]
    } else {
        seq![large] + len32(len)
    }
}

/// The bytes of a term in the binary format, with the smallest tag that
/// fits: a tag byte and what the tag asks for.
pub open spec fn encode_term(term: Term) -> Seq<u8>
    decreases term, 1nat, 0nat,
{
    match term {
        Term::Nil => seq![NIL_EXT],
        Term::Int(n) => if 0 <= n < 256 {
            seq![SMALL_INTEGER_EXT, n as u8]
        } else {
            seq![INTEGER_EXT] + be_bytes(unsigned32(n as int), 4)
        },
        Term::BigInt(n) => sized_head(SMALL_BIG_EXT, LARGE_BIG_EXT, wire_digits(n).len()) + seq![
            if n < 0 {
                1u8
            } else {
                0u8
            },
        ] + wire_digits(n),
        Term::Float(bits) => seq![NEW_FLOAT_EXT] + be_bytes(bits as nat, 8),
        Term::Tuple(terms) => sized_head(SMALL_TUPLE_EXT, LARGE_TUPLE_EXT, terms.len())
            + encode_terms(terms, terms.len()),
        Term::List(terms) => seq![LIST_EXT] + len32(terms.len()) + encode_terms(
            terms,
            terms.len(),
        ) + seq![NIL_EXT],
        Term::Mapping(keys, vals) => seq![MAP_EXT] + len32(keys.len()) + encode_pairs(
            term,
            if keys.len() <= vals.len() {
                keys.len()
            } else {
                vals.len()
            },
        ),
        Term::Atom(name) => seq![ATOM_UTF8_EXT] + len16(encode_utf8(name).len()) + encode_utf8(
            name,
        ),
        Term::String(bytes) => seq![STRING_EXT] + len16(bytes.len()) + bytes,
        Term::Binary(bytes) => seq![BINARY_EXT] + len32(bytes.len()) + bytes,
    }
}

/// The bytes of the first `count` terms of `terms`, one behind the other.
pub open spec fn encode_terms(terms: Seq<Term>, count: nat) -> Seq<u8>
    decreases terms, 0nat, count,
{
    if count == 0 || count > terms.len() {
        Seq::empty()
    } else {
        encode_terms(terms, (count - 1) as nat) + encode_term(terms[count - 1])
    }
}

/// The bytes of the first `count` keys of a map, each followed by its value.
pub open spec fn encode_pairs(map: Term, count: nat) -> Seq<u8>
    decreases map, 0nat, count,
{
    match map {
        Term::Mapping(keys, vals) => if count == 0 || count > keys.len() || count > vals.len() {
            Seq::empty()
        } else {
            encode_pairs(map, (count - 1) as nat) + encode_term(keys[count - 1]) + encode_term(
                vals[count - 1],
            )
        },
        _ => Seq::empty(),
    }
}

/// A term as it stands in a file: the magic byte, then the term.
pub open spec fn encoding(term: Term) -> Seq<u8> {
    seq![BERT_MAGIC_NUMBER] + encode_term(term)
}

/// The writer of the binary format.
pub struct BertWriter;

impl BertWriter {
    /// A writer. It has no settings.
    pub fn new() -> (writer: Self) {
        BertWriter {  }
    }

    /// Appends to `out` the magic byte and the bytes of `term`.
    pub fn write(&self, term: &BertTerm, out: &mut Vec<u8>)
        ensures
            final(out)@ == old(out)@ + encoding(term@),
    {
        out.push(BERT_MAGIC_NUMBER);
        self.write_bert(term, out);
        assert(out@ =~= old(out)@ + encoding(term@));
    }

    /// Appends to `out` the tag and the length of something that has a small
    /// and a large form.
    fn write_sized_head(&self, small: u8, large: u8, len: usize, out: &mut Vec<u8>)
        ensures
            final(out)@ == old(out)@ + sized_head(small, large, len as nat),
    {
        if len < 256 {
            out.push(small);
            out.push(len as u8);
            assert(out@ =~= old(out)@ + sized_head(small, large, len as nat));
        } else {
            out.push(large);
            self.write_len32(len, out);
            assert(out@ =~= old(out)@ + sized_head(small, large, len as nat));
        }
    }

    /// Appends to `out` a length in four bytes, cut off where it is larger.
    fn write_len32(&self, len: usize, out: &mut Vec<u8>)
        ensures
            final(out)@ == old(out)@ + len32(len as nat),
    {
        let cut: u32 = #[verifier::truncate] (len as u32);
        let wide: u64 = len as u64;
        assert(cut as u64 == wide % 0x1_0000_0000u64) by (bit_vector)
            requires
                cut == #[verifier::truncate] (wide as u32),
        ;
        let bytes = write_u32_be(cut);
        push_all(out, bytes.as_slice());
    }

    /// Appends to `out` a length in two bytes, cut off where it is larger.
    fn write_len16(&self, len: usize, out: &mut Vec<u8>)
        ensures
            final(out)@ == old(out)@ + len16(len as nat),
    {
        let cut: u16 = #[verifier::truncate] (len as u16);
        let wide: u64 = len as u64;
        assert(cut as u64 == wide % 0x1_0000u64) by (bit_vector)
            requires
                cut == #[verifier::truncate] (wide as u16),
        ;
        let bytes = write_u16_be(cut);
        push_all(out, bytes.as_slice());
    }

    /// Appends to `out` the bytes of `term`.
    pub fn write_bert(&self, term: &BertTerm, out: &mut Vec<u8>)
        ensures
            final(out)@ == old(out)@ + encode_term(term@),
        decreases term,
    {
        match term {
            BertTerm::Nil => {
                out.push(NIL_EXT);
                assert(out@ =~= old(out)@ + encode_term(term@));
            },
            BertTerm::Int(n) => {
                let n: i32 = *n;
                if n >= 0 && n < 256 {
                    out.push(SMALL_INTEGER_EXT);
                    out.push(n as u8);
                } else {
                    out.push(INTEGER_EXT);
                    let bytes = write_i32_be(n);
                    push_all(out, bytes.as_slice());
                }
                assert(out@ =~= old(out)@ + encode_term(term@));
            },
            BertTerm::BigInt(b) => {
                let (negative, bytes) = b.to_bytes_le();
                self.write_sized_head(SMALL_BIG_EXT, LARGE_BIG_EXT, bytes.len(), out);
                if negative {
                    out.push(1);
                } else {
                    out.push(0);
                }
                push_all(out, bytes.as_slice());
                assert(out@ =~= old(out)@ + encode_term(term@));
            },
            BertTerm::Float(bits) => {
                out.push(NEW_FLOAT_EXT);
                let bytes = write_u64_be(*bits);
                push_all(out, bytes.as_slice());
                assert(out@ =~= old(out)@ + encode_term(term@));
            },
            BertTerm::Tuple(terms) => {
                self.write_sized_head(SMALL_TUPLE_EXT, LARGE_TUPLE_EXT, terms.len(), out);
                self.write_terms(terms, out);
                proof {
                    lemma_terms_view(terms@);
                }
                assert(out@ =~= old(out)@ + encode_term(term@));
            },
            BertTerm::List(terms) => {
                out.push(LIST_EXT);
                self.write_len32(terms.len(), out);
                self.write_terms(terms, out);
                out.push(NIL_EXT);
                proof {
                    lemma_terms_view(terms@);
                }
                assert(out@ =~= old(out)@ + encode_term(term@));
            },
            BertTerm::Mapping(keys, vals) => {
                out.push(MAP_EXT);
                self.write_len32(keys.len(), out);
                proof {
                    lemma_terms_view(keys@);
                    lemma_terms_view(vals@);
                }
                let ghost head = out@;
                let count: usize = if keys.len() <= vals.len() {
                    keys.len()
                } else {
                    vals.len()
                };
                let mut i: usize = 0;
                while i < count
                    invariant
                        i <= count,
                        count <= keys.len(),
                        count <= vals.len(),
                        term == BertTerm::Mapping(*keys, *vals),
                        terms_view(keys@).len() == keys.len(),
                        terms_view(vals@).len() == vals.len(),
                        forall|j: int|
                            0 <= j < keys.len() ==> (#[trigger] terms_view(keys@)[j]) == keys[j]@,
                        forall|j: int|
                            0 <= j < vals.len() ==> (#[trigger] terms_view(vals@)[j]) == vals[j]@,
                        term@ == Term::Mapping(terms_view(keys@), terms_view(vals@)),
                        out@ == head + encode_pairs(term@, i as nat),
                    decreases count - i,
                {
                    self.write_bert(&keys[i], out);
                    self.write_bert(&vals[i], out);
                    i = i + 1;
                    assert(out@ =~= head + encode_pairs(term@, i as nat));
                }
                assert(out@ =~= old(out)@ + encode_term(term@));
            },
            BertTerm::Atom(name) => {
                let bytes = name.as_str().as_bytes();
                out.push(ATOM_UTF8_EXT);
                self.write_len16(bytes.len(), out);
                push_all(out, bytes);
                assert(out@ =~= old(out)@ + encode_term(term@));
            },
            BertTerm::String(bytes) => {
                out.push(STRING_EXT);
                self.write_len16(bytes.len(), out);
                push_all(out, bytes.as_slice());
                assert(out@ =~= old(out)@ + encode_term(term@));
            },
            BertTerm::Binary(bytes) => {
                out.push(BINARY_EXT);
                self.write_len32(bytes.len(), out);
                push_all(out, bytes.as_slice());
                assert(out@ =~= old(out)@ + encode_term(term@));
            },
        }
    }

    /// Appends to `out` the bytes of each term of `terms`.
    fn write_terms(&self, terms: &Vec<BertTerm>, out: &mut Vec<u8>)
        ensures
            final(out)@ == old(out)@ + encode_terms(terms_view(terms@), terms.len() as nat),
        decreases terms,
    {
        proof {
            lemma_terms_view(terms@);
        }
        let mut i: usize = 0;
        assert(out@ =~= old(out)@ + encode_terms(terms_view(terms@), 0));
        while i < terms.len()
            invariant
                i <= terms.len(),
                terms_view(terms@).len() == terms.len(),
                forall|j: int|
                    0 <= j < terms.len() ==> (#[trigger] terms_view(terms@)[j]) == terms[j]@,
                out@ == old(out)@ + encode_terms(terms_view(terms@), i as nat),
            decreases terms.len() - i,
        {
            self.write_bert(&terms[i], out);
            i = i + 1;
            assert(out@ =~= old(out)@ + encode_terms(terms_view(terms@), i as nat));
        }
    }
}

} // verus!
