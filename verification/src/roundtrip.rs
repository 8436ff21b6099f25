//! What the writer of the binary format writes, the decoder reads back.

use vstd::prelude::*;
use vstd::utf8::encode_utf8;
use crate::bertterm::Term;
use crate::bigint::le_value;
use crate::bigint::lemma_le_digits_value;
use crate::bigint::magnitude_of;
use crate::bigint::wire_digits;
use crate::consts::ATOM_UTF8_EXT;
use crate::consts::BINARY_EXT;
use crate::consts::INTEGER_EXT;
use crate::consts::LARGE_BIG_EXT;
use crate::consts::LARGE_TUPLE_EXT;
use crate::consts::LIST_EXT;
use crate::consts::MAP_EXT;
use crate::consts::NEW_FLOAT_EXT;
use crate::consts::NIL_EXT;
use crate::consts::SMALL_BIG_EXT;
use crate::consts::SMALL_INTEGER_EXT;
use crate::consts::SMALL_TUPLE_EXT;
use crate::consts::STRING_EXT;
use crate::error::BertError;
use crate::grammar::FloatParse;
use crate::grammar::bert1_at;
use crate::grammar::bigint_at;
use crate::grammar::list_at;
use crate::grammar::map_at;
use crate::grammar::pairs_at;
use crate::grammar::take_be;
use crate::grammar::take_slice;
use crate::grammar::take_u8;
use crate::grammar::term_at;
use crate::grammar::terms_at;
use crate::grammar::tuple_at;
use crate::pp::bert::encode_pairs;
use crate::pp::bert::encode_term;
use crate::pp::bert::encode_terms;
use crate::pp::bert::encoding;
use crate::pp::bert::len16;
use crate::pp::bert::len32;
use crate::pp::bert::sized_head;
use crate::wire::be_bytes;
use crate::wire::lemma_be_bytes_len;
use crate::wire::lemma_be_round_trip;
use crate::wire::pow256;
use crate::wire::unsigned32;

verus! {

/// A term whose lengths fit the fields that the binary format has for them:
/// two bytes for the length of an atom's name in UTF-8 and of a string, four
/// bytes for every other length. The keys of a map are as many as its values.
pub open spec fn encodable(term: Term) -> bool
    decreases term,
{
    match term {
        Term::Nil => true,
        Term::Int(_) => true,
        Term::Float(_) => true,
        Term::BigInt(n) => wire_digits(n).len() < 0x1_0000_0000,
        Term::Atom(name) => encode_utf8(name).len() < 0x1_0000,
        Term::String(bytes) => bytes.len() < 0x1_0000,
        Term::Binary(bytes) => bytes.len() < 0x1_0000_0000,
        Term::Tuple(terms) => terms.len() < 0x1_0000_0000 && forall|i: int|
            0 <= i < terms.len() ==> encodable(#[trigger] terms[i]),
        Term::List(terms) => terms.len() < 0x1_0000_0000 && forall|i: int|
            0 <= i < terms.len() ==> encodable(#[trigger] terms[i]),
        Term::Mapping(keys, vals) => keys.len() == vals.len() && keys.len() < 0x1_0000_0000
            && (forall|i: int| 0 <= i < keys.len() ==> encodable(#[trigger] keys[i])) && (forall|
            i: int,
        | 0 <= i < vals.len() ==> encodable(#[trigger] vals[i])),
    }
}

/// The bytes `part` stand in `buf` from `pos` on.
pub open spec fn holds(buf: Seq<u8>, pos: int, part: Seq<u8>) -> bool {
    0 <= pos && pos + part.len() <= buf.len() && buf.subrange(pos, pos + part.len()) == part
}

/// Where two parts stand one behind the other, each of them stands at its place.
proof fn lemma_holds_split(buf: Seq<u8>, pos: int, a: Seq<u8>, b: Seq<u8>)
    requires
        holds(buf, pos, a + b),
    ensures
        holds(buf, pos, a),
        holds(buf, pos + a.len(), b),
{
    let whole = buf.subrange(pos, pos + (a + b).len());
    assert(buf.subrange(pos, pos + a.len()) =~= whole.subrange(0, a.len() as int));
    assert((a + b).subrange(0, a.len() as int) =~= a);
    assert(buf.subrange(pos + a.len(), pos + a.len() + b.len()) =~= whole.subrange(
        a.len() as int,
        (a + b).len() as int,
    ));
    assert((a + b).subrange(a.len() as int, (a + b).len() as int) =~= b);
}

/// The first byte of a part that stands at `pos` is the byte read at `pos`.
proof fn lemma_take_u8(buf: Seq<u8>, pos: int, part: Seq<u8>)
    requires
        holds(buf, pos, part),
        part.len() >= 1,
    ensures
        take_u8(buf, pos) == Ok::<(u8, int), BertError>((part[0], pos + 1)),
{
    assert(buf.subrange(pos, pos + part.len())[0] == buf[pos]);
}

/// A part that stands at `pos` is what a read of its length gives at `pos`.
proof fn lemma_take_slice(buf: Seq<u8>, pos: int, part: Seq<u8>)
    requires
        holds(buf, pos, part),
    ensures
        take_slice(buf, pos, part.len() as int) == Ok::<(Seq<u8>, int), BertError>(
            (part, pos + part.len()),
        ),
{
}

/// The bytes of a number that fits them are read back as the number.
proof fn lemma_take_be(buf: Seq<u8>, pos: int, n: nat, width: nat)
    requires
        holds(buf, pos, be_bytes(n, width)),
        n < pow256(width),
    ensures
        take_be(buf, pos, width as int) == Ok::<(nat, int), BertError>(
            (n, pos + width),
        ),
{
    lemma_be_round_trip(n, width);
}

/// The powers of 256 that bound the length fields.
proof fn lemma_pow256_values()
    ensures
        pow256(1) == 0x100,
        pow256(2) == 0x1_0000,
        pow256(4) == 0x1_0000_0000,
        pow256(8) == 0x1_0000_0000_0000_0000,
{
    reveal_with_fuel(pow256, 9);
}

/// A tag and a length of two bytes are read back, and the rest stands behind them.
proof fn lemma_head16(buf: Seq<u8>, pos: int, tag: u8, len: nat, rest: Seq<u8>)
    requires
        holds(buf, pos, seq![tag] + len16(len) + rest),
        len < 0x1_0000,
    ensures
        take_u8(buf, pos) == Ok::<(u8, int), BertError>((tag, pos + 1)),
        take_be(buf, pos + 1, 2) == Ok::<(nat, int), BertError>((len, pos + 3)),
        holds(buf, pos + 3, rest),
        (seq![tag] + len16(len) + rest).len() == 3 + rest.len(),
{
    lemma_pow256_values();
    lemma_be_bytes_len(len, 2);
    lemma_holds_split(buf, pos, seq![tag] + len16(len), rest);
    lemma_holds_split(buf, pos, seq![tag], len16(len));
    lemma_take_u8(buf, pos, seq![tag]);
    lemma_take_be(buf, pos + 1, len, 2);
}

/// A tag and a length of four bytes are read back, and the rest stands behind them.
proof fn lemma_head32(buf: Seq<u8>, pos: int, tag: u8, len: nat, rest: Seq<u8>)
    requires
        holds(buf, pos, seq![tag] + len32(len) + rest),
        len < 0x1_0000_0000,
    ensures
        take_u8(buf, pos) == Ok::<(u8, int), BertError>((tag, pos + 1)),
        take_be(buf, pos + 1, 4) == Ok::<(nat, int), BertError>((len, pos + 5)),
        holds(buf, pos + 5, rest),
        (seq![tag] + len32(len) + rest).len() == 5 + rest.len(),
{
    lemma_pow256_values();
    lemma_be_bytes_len(len, 4);
    lemma_holds_split(buf, pos, seq![tag] + len32(len), rest);
    lemma_holds_split(buf, pos, seq![tag], len32(len));
    lemma_take_u8(buf, pos, seq![tag]);
    lemma_take_be(buf, pos + 1, len, 4);
}

/// The small or the large form of a tag and a length is read back, and the rest
/// stands behind it.
proof fn lemma_sized_head(buf: Seq<u8>, pos: int, small: u8, large: u8, len: nat, rest: Seq<u8>)
    requires
        holds(buf, pos, sized_head(small, large, len) + rest),
        len < 0x1_0000_0000,
    ensures
        len < 256 ==> take_u8(buf, pos) == Ok::<(u8, int), BertError>((small, pos + 1))
            && take_u8(buf, pos + 1) == Ok::<(u8, int), BertError>((len as u8, pos + 2)) && holds(
            buf,
            pos + 2,
            rest,
        ) && (sized_head(small, large, len) + rest).len() == 2 + rest.len(),
        len >= 256 ==> take_u8(buf, pos) == Ok::<(u8, int), BertError>((large, pos + 1))
            && take_be(buf, pos + 1, 4) == Ok::<(nat, int), BertError>((len, pos + 5)) && holds(
            buf,
            pos + 5,
            rest,
        ) && (sized_head(small, large, len) + rest).len() == 5 + rest.len(),
{
    if len < 256 {
        assert(sized_head(small, large, len) + rest =~= seq![small] + seq![len as u8] + rest);
        lemma_holds_split(buf, pos, seq![small] + seq![len as u8], rest);
        lemma_holds_split(buf, pos, seq![small], seq![len as u8]);
        lemma_take_u8(buf, pos, seq![small]);
        lemma_take_u8(buf, pos + 1, seq![len as u8]);
    } else {
        lemma_head32(buf, pos, large, len, rest);
    }
}

/// The bytes of an integer are decoded as the integer.
proof fn lemma_int_round_trip(n: i32, buf: Seq<u8>, pos: int, float_of: FloatParse)
    requires
        holds(buf, pos, encode_term(Term::Int(n))),
    ensures
        term_at(buf, pos, float_of) == Ok::<(Term, int), BertError>(
            (Term::Int(n), pos + encode_term(Term::Int(n)).len()),
        ),
{
    lemma_pow256_values();
    if 0 <= n < 256 {
        assert(encode_term(Term::Int(n)) =~= seq![SMALL_INTEGER_EXT] + seq![n as u8]);
        lemma_holds_split(buf, pos, seq![SMALL_INTEGER_EXT], seq![n as u8]);
        lemma_take_u8(buf, pos, seq![SMALL_INTEGER_EXT]);
        lemma_take_u8(buf, pos + 1, seq![n as u8]);
    } else {
        let word = unsigned32(n as int);
        lemma_be_bytes_len(word, 4);
        lemma_holds_split(buf, pos, seq![INTEGER_EXT], be_bytes(word, 4));
        lemma_take_u8(buf, pos, seq![INTEGER_EXT]);
        lemma_take_be(buf, pos + 1, word, 4);
    }
}

/// The bytes of a float are decoded as the float.
proof fn lemma_float_round_trip(bits: u64, buf: Seq<u8>, pos: int, float_of: FloatParse)
    requires
        holds(buf, pos, encode_term(Term::Float(bits))),
    ensures
        term_at(buf, pos, float_of) == Ok::<(Term, int), BertError>(
            (Term::Float(bits), pos + encode_term(Term::Float(bits)).len()),
        ),
{
    lemma_pow256_values();
    lemma_be_bytes_len(bits as nat, 8);
    lemma_holds_split(buf, pos, seq![NEW_FLOAT_EXT], be_bytes(bits as nat, 8));
    lemma_take_u8(buf, pos, seq![NEW_FLOAT_EXT]);
    lemma_take_be(buf, pos + 1, bits as nat, 8);
}

/// The bytes of an atom are decoded as the atom.
proof fn lemma_atom_round_trip(name: Seq<char>, buf: Seq<u8>, pos: int, float_of: FloatParse)
    requires
        encodable(Term::Atom(name)),
        holds(buf, pos, encode_term(Term::Atom(name))),
    ensures
        term_at(buf, pos, float_of) == Ok::<(Term, int), BertError>(
            (Term::Atom(name), pos + encode_term(Term::Atom(name)).len()),
        ),
{
    let bytes = encode_utf8(name);
    lemma_head16(buf, pos, ATOM_UTF8_EXT, bytes.len(), bytes);
    lemma_take_slice(buf, pos + 3, bytes);
    vstd::utf8::encode_utf8_valid_utf8(name);
    vstd::utf8::encode_utf8_decode_utf8(name);
}

/// The bytes of a string are decoded as the string.
proof fn lemma_string_round_trip(bytes: Seq<u8>, buf: Seq<u8>, pos: int, float_of: FloatParse)
    requires
        encodable(Term::String(bytes)),
        holds(buf, pos, encode_term(Term::String(bytes))),
    ensures
        term_at(buf, pos, float_of) == Ok::<(Term, int), BertError>(
            (Term::String(bytes), pos + encode_term(Term::String(bytes)).len()),
        ),
{
    lemma_head16(buf, pos, STRING_EXT, bytes.len(), bytes);
    lemma_take_slice(buf, pos + 3, bytes);
}

/// The bytes of a binary are decoded as the binary.
proof fn lemma_binary_round_trip(bytes: Seq<u8>, buf: Seq<u8>, pos: int, float_of: FloatParse)
    requires
        encodable(Term::Binary(bytes)),
        holds(buf, pos, encode_term(Term::Binary(bytes))),
    ensures
        term_at(buf, pos, float_of) == Ok::<(Term, int), BertError>(
            (Term::Binary(bytes), pos + encode_term(Term::Binary(bytes)).len()),
        ),
{
    lemma_head32(buf, pos, BINARY_EXT, bytes.len(), bytes);
    lemma_take_slice(buf, pos + 5, bytes);
}

/// The bytes of a big integer are decoded as the big integer.
proof fn lemma_bigint_round_trip(n: int, buf: Seq<u8>, pos: int, float_of: FloatParse)
    requires
        encodable(Term::BigInt(n)),
        holds(buf, pos, encode_term(Term::BigInt(n))),
    ensures
        term_at(buf, pos, float_of) == Ok::<(Term, int), BertError>(
            (Term::BigInt(n), pos + encode_term(Term::BigInt(n)).len()),
        ),
{
    let digits = wire_digits(n);
    let sign: u8 = if n < 0 {
        1u8
    } else {
        0u8
    };
    let rest = seq![sign] + digits;
    assert(encode_term(Term::BigInt(n)) =~= sized_head(SMALL_BIG_EXT, LARGE_BIG_EXT, digits.len())
        + rest);
    lemma_sized_head(buf, pos, SMALL_BIG_EXT, LARGE_BIG_EXT, digits.len(), rest);
    let start: int = if digits.len() < 256 {
        pos + 2
    } else {
        pos + 5
    };
    lemma_holds_split(buf, start, seq![sign], digits);
    lemma_take_u8(buf, start, seq![sign]);
    lemma_le_digits_value(magnitude_of(n));
    if n == 0 {
        assert(le_value(seq![0u8]) == 0) by {
            assert(seq![0u8].drop_first() =~= Seq::<u8>::empty());
            reveal_with_fuel(le_value, 2);
        }
    }
    assert(bigint_at(buf, start, digits.len() as int) == Ok::<(Term, int), BertError>(
        (Term::BigInt(n), start + 1 + digits.len()),
    ));
}

/// The bytes of a tuple are decoded as the tuple.
proof fn lemma_tuple_round_trip(term: Term, buf: Seq<u8>, pos: int, float_of: FloatParse)
    requires
        term is Tuple,
        encodable(term),
        holds(buf, pos, encode_term(term)),
    ensures
        term_at(buf, pos, float_of) == Ok::<(Term, int), BertError>(
            (term, pos + encode_term(term).len()),
        ),
    decreases term, 0nat, 0nat,
{
    let terms = term->Tuple_0;
    let body = encode_terms(terms, terms.len());
    lemma_sized_head(buf, pos, SMALL_TUPLE_EXT, LARGE_TUPLE_EXT, terms.len(), body);
    let start: int = if terms.len() < 256 {
        pos + 2
    } else {
        pos + 5
    };
    lemma_terms_round_trip(terms, terms.len(), buf, start, float_of);
    assert(terms.subrange(0, terms.len() as int) =~= terms);
    assert(tuple_at(buf, start, terms.len(), float_of) == Ok::<(Term, int), BertError>(
        (term, start + body.len()),
    ));
}

/// The bytes of a list are decoded as the list.
proof fn lemma_list_round_trip(term: Term, buf: Seq<u8>, pos: int, float_of: FloatParse)
    requires
        term is List,
        encodable(term),
        holds(buf, pos, encode_term(term)),
    ensures
        term_at(buf, pos, float_of) == Ok::<(Term, int), BertError>(
            (term, pos + encode_term(term).len()),
        ),
    decreases term, 0nat, 0nat,
{
    let terms = term->List_0;
    let body = encode_terms(terms, terms.len());
    assert(encode_term(term) =~= seq![LIST_EXT] + len32(terms.len()) + (body + seq![NIL_EXT]));
    lemma_head32(buf, pos, LIST_EXT, terms.len(), body + seq![NIL_EXT]);
    lemma_holds_split(buf, pos + 5, body, seq![NIL_EXT]);
    lemma_terms_round_trip(terms, terms.len(), buf, pos + 5, float_of);
    assert(terms.subrange(0, terms.len() as int) =~= terms);
    lemma_take_u8(buf, pos + 5 + body.len(), seq![NIL_EXT]);
    assert(term_at(buf, pos + 5 + body.len(), float_of) == Ok::<(Term, int), BertError>(
        (Term::Nil, pos + 5 + body.len() + 1),
    ));
    assert(list_at(buf, pos + 1, float_of) == Ok::<(Term, int), BertError>(
        (term, pos + 5 + body.len() + 1),
    ));
}

/// The bytes of a map are decoded as the map.
proof fn lemma_map_round_trip(term: Term, buf: Seq<u8>, pos: int, float_of: FloatParse)
    requires
        term is Mapping,
        encodable(term),
        holds(buf, pos, encode_term(term)),
    ensures
        term_at(buf, pos, float_of) == Ok::<(Term, int), BertError>(
            (term, pos + encode_term(term).len()),
        ),
    decreases term, 0nat, term->Mapping_0.len() + 1,
{
    let keys = term->Mapping_0;
    let vals = term->Mapping_1;
    let body = encode_pairs(term, keys.len());
    lemma_head32(buf, pos, MAP_EXT, keys.len(), body);
    lemma_pairs_round_trip(term, keys.len(), buf, pos + 5, float_of);
    assert(keys.subrange(0, keys.len() as int) =~= keys);
    assert(vals.subrange(0, keys.len() as int) =~= vals);
    assert(map_at(buf, pos + 1, float_of) == Ok::<(Term, int), BertError>(
        (term, pos + 5 + body.len()),
    ));
}

/// Decoding the bytes of a term gives the term, wherever in a buffer the
/// bytes stand, and ends right behind them.
pub proof fn lemma_term_round_trip(term: Term, buf: Seq<u8>, pos: int, float_of: FloatParse)
    requires
        encodable(term),
        holds(buf, pos, encode_term(term)),
    ensures
        term_at(buf, pos, float_of) == Ok::<(Term, int), BertError>(
            (term, pos + encode_term(term).len()),
        ),
    decreases term, 1nat, 0nat,
{
    match term {
        Term::Nil => {
            lemma_take_u8(buf, pos, seq![NIL_EXT]);
        },
        Term::Int(n) => {
            lemma_int_round_trip(n, buf, pos, float_of);
        },
        Term::Float(bits) => {
            lemma_float_round_trip(bits, buf, pos, float_of);
        },
        Term::BigInt(n) => {
            lemma_bigint_round_trip(n, buf, pos, float_of);
        },
        Term::Atom(name) => {
            lemma_atom_round_trip(name, buf, pos, float_of);
        },
        Term::String(bytes) => {
            lemma_string_round_trip(bytes, buf, pos, float_of);
        },
        Term::Binary(bytes) => {
            lemma_binary_round_trip(bytes, buf, pos, float_of);
        },
        Term::Tuple(_) => {
            lemma_tuple_round_trip(term, buf, pos, float_of);
        },
        Term::List(_) => {
            lemma_list_round_trip(term, buf, pos, float_of);
        },
        Term::Mapping(_, _) => {
            lemma_map_round_trip(term, buf, pos, float_of);
        },
    }
}

/// Decoding the bytes of a run of terms gives the terms.
pub proof fn lemma_terms_round_trip(
    terms: Seq<Term>,
    count: nat,
    buf: Seq<u8>,
    pos: int,
    float_of: FloatParse,
)
    requires
        count <= terms.len(),
        forall|i: int| 0 <= i < count ==> encodable(#[trigger] terms[i]),
        holds(buf, pos, encode_terms(terms, count)),
    ensures
        terms_at(buf, pos, count, float_of) == Ok::<(Seq<Term>, int), BertError>(
            (terms.subrange(0, count as int), pos + encode_terms(terms, count).len()),
        ),
    decreases terms, 0nat, count,
{
    if count == 0 {
        assert(terms.subrange(0, 0) =~= Seq::<Term>::empty());
    } else {
        let before = encode_terms(terms, (count - 1) as nat);
        let last = encode_term(terms[count - 1]);
        lemma_holds_split(buf, pos, before, last);
        lemma_terms_round_trip(terms, (count - 1) as nat, buf, pos, float_of);
        lemma_term_round_trip(terms[count - 1], buf, pos + before.len(), float_of);
        assert(terms.subrange(0, count - 1).push(terms[count - 1]) =~= terms.subrange(
            0,
            count as int,
        ));
    }
}

/// Decoding the bytes of the pairs of a map gives its keys and its values.
pub proof fn lemma_pairs_round_trip(
    map: Term,
    count: nat,
    buf: Seq<u8>,
    pos: int,
    float_of: FloatParse,
)
    requires
        map is Mapping,
        count <= map->Mapping_0.len(),
        count <= map->Mapping_1.len(),
        forall|i: int| 0 <= i < count ==> encodable(#[trigger] map->Mapping_0[i]),
        forall|i: int| 0 <= i < count ==> encodable(#[trigger] map->Mapping_1[i]),
        holds(buf, pos, encode_pairs(map, count)),
    ensures
        pairs_at(buf, pos, count, float_of) == Ok::<
            ((Seq<Term>, Seq<Term>), int),
            BertError,
        >(
            (
                (
                    map->Mapping_0.subrange(0, count as int),
                    map->Mapping_1.subrange(0, count as int),
                ),
                pos + encode_pairs(map, count).len(),
            ),
        ),
    decreases map, 0nat, count,
{
    let keys = map->Mapping_0;
    let vals = map->Mapping_1;
    if count == 0 {
        assert(keys.subrange(0, 0) =~= Seq::<Term>::empty());
        assert(vals.subrange(0, 0) =~= Seq::<Term>::empty());
    } else {
        let before = encode_pairs(map, (count - 1) as nat);
        let key = encode_term(keys[count - 1]);
        let val = encode_term(vals[count - 1]);
        lemma_holds_split(buf, pos, before + key, val);
        lemma_holds_split(buf, pos, before, key);
        lemma_pairs_round_trip(map, (count - 1) as nat, buf, pos, float_of);
        lemma_term_round_trip(keys[count - 1], buf, pos + before.len(), float_of);
        lemma_term_round_trip(vals[count - 1], buf, pos + before.len() + key.len(), float_of);
        assert(keys.subrange(0, count - 1).push(keys[count - 1]) =~= keys.subrange(
            0,
            count as int,
        ));
        assert(vals.subrange(0, count - 1).push(vals[count - 1]) =~= vals.subrange(
            0,
            count as int,
        ));
    }
}

/// What the writer writes for a term, the decoder reads back as that term,
/// and it reads all of it. This holds of every term whose lengths fit the
/// binary format, whatever the float parser does.
pub proof fn lemma_round_trip(term: Term, float_of: FloatParse)
    requires
        encodable(term),
    ensures
        bert1_at(encoding(term), 0, float_of) == Some(
            Ok::<(Term, int), BertError>((term, encoding(term).len() as int)),
        ),
{
    let buf = encoding(term);
    assert(buf.subrange(1, 1 + encode_term(term).len() as int) =~= encode_term(term));
    lemma_term_round_trip(term, buf, 1, float_of);
}

} // verus!
