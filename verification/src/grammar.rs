//! The wire format as a function on bytes: what stands at a position of a
//! buffer, and where it ends.

use vstd::prelude::*;
use vstd::utf8::decode_utf8;
use vstd::utf8::valid_utf8;
use crate::bertterm::Term;
use crate::bigint::le_value;
use crate::bigint::signed;
use crate::consts::ATOM_EXT;
use crate::consts::ATOM_UTF8_EXT;
use crate::consts::BERT_MAGIC_NUMBER;
use crate::consts::BINARY_EXT;
use crate::consts::DISK_LOG_CLOSED;
use crate::consts::DISK_LOG_MAGIC;
use crate::consts::DISK_LOG_OPENED;
use crate::consts::DISK_LOG_TERM_MAGIC;
use crate::consts::FLOAT_EXT;
use crate::consts::INTEGER_EXT;
use crate::consts::LARGE_BIG_EXT;
use crate::consts::LARGE_TUPLE_EXT;
use crate::consts::LIST_EXT;
use crate::consts::MAP_EXT;
use crate::consts::NEW_FLOAT_EXT;
use crate::consts::NIL_EXT;
use crate::consts::SMALL_ATOM_EXT;
use crate::consts::SMALL_ATOM_UTF8_EXT;
use crate::consts::SMALL_BIG_EXT;
use crate::consts::SMALL_INTEGER_EXT;
use crate::consts::SMALL_TUPLE_EXT;
use crate::consts::STRING_EXT;
use crate::error::BertError;
use crate::text::latin1;
use crate::wire::be_value;
use crate::wire::signed32;

verus! {

/// What was read and the position behind it, or why nothing was read.
pub type Parsed<T> = Result<(T, int), BertError>;

/// What a caller's float parser makes of the text of an old-style float: the
/// IEEE 754 bits of the number, or nothing where the text is no float.
pub type FloatParse = spec_fn(Seq<u8>) -> Option<u64>;

/// The error of a read of `needed` bytes at `pos` that the buffer cannot serve.
pub open spec fn not_enough(s: Seq<u8>, pos: int, needed: int) -> BertError {
    BertError::NotEnoughData {
        offset: pos as usize,
        needed: needed as usize,
        available: (s.len() - pos) as usize,
    }
}

/// The byte at `pos`.
pub open spec fn take_u8(s: Seq<u8>, pos: int) -> Parsed<u8> {
    if 0 <= pos < s.len() {
        Ok((s[pos], pos + 1))
    } else {
        Err(BertError::NotEnoughData { offset: pos as usize, needed: 1, available: 0 })
    }
}

/// The `len` bytes from `pos` on.
pub open spec fn take_slice(s: Seq<u8>, pos: int, len: int) -> Parsed<Seq<u8>> {
    if 0 <= pos <= pos + len <= s.len() {
        Ok((s.subrange(pos, pos + len), pos + len))
    } else {
        Err(not_enough(s, pos, len))
    }
}

/// The big-endian number in the `width` bytes from `pos` on.
pub open spec fn take_be(s: Seq<u8>, pos: int, width: int) -> Parsed<nat> {
    match take_slice(s, pos, width) {
        Ok((bytes, end)) => Ok((be_value(bytes), end)),
        Err(e) => Err(e),
    }
}

/// How many bytes from `pos` on, up to the end of the buffer, are zero
/// (`zero` set) or are not zero (`zero` not set).
pub open spec fn run_len(s: Seq<u8>, pos: int, zero: bool) -> int
    decreases s.len() - pos,
{
    if 0 <= pos < s.len() && (s[pos] == 0) == zero {
        1 + run_len(s, pos + 1, zero)
    } else {
        0
    }
}

/// A small integer: one unsigned byte.
pub open spec fn small_integer_at(s: Seq<u8>, pos: int) -> Parsed<Term> {
    match take_u8(s, pos) {
        Ok((b, end)) => Ok((Term::Int(b as i32), end)),
        Err(e) => Err(e),
    }
}

/// An integer: four bytes, big-endian, in two's complement.
pub open spec fn integer_at(s: Seq<u8>, pos: int) -> Parsed<Term> {
    match take_be(s, pos, 4) {
        Ok((n, end)) => Ok((Term::Int(signed32(n) as i32), end)),
        Err(e) => Err(e),
    }
}

/// A float in the old form: its text up to the first zero byte or the end of
/// the buffer, then the zero bytes that pad it. The text goes to the
/// caller's float parser.
pub open spec fn old_float_at(s: Seq<u8>, pos: int, float_of: FloatParse) -> Parsed<Term> {
    let text_end = pos + run_len(s, pos, false);
    let end = text_end + run_len(s, text_end, true);
    match float_of(s.subrange(pos, text_end)) {
        Some(bits) => Ok((Term::Float(bits), end)),
        None => Err(BertError::InvalidFloat(pos as usize)),
    }
}

/// A float in the new form: the eight bytes of its IEEE 754 bits, big-endian.
pub open spec fn new_float_at(s: Seq<u8>, pos: int) -> Parsed<Term> {
    match take_be(s, pos, 8) {
        Ok((bits, end)) => Ok((Term::Float(bits as u64), end)),
        Err(e) => Err(e),
    }
}

/// The `len` bytes of a Latin-1 atom.
pub open spec fn atom_at(s: Seq<u8>, pos: int, len: int) -> Parsed<Term> {
    match take_slice(s, pos, len) {
        Ok((bytes, end)) => Ok((Term::Atom(latin1(bytes)), end)),
        Err(e) => Err(e),
    }
}

/// The `len` bytes of a UTF-8 atom.
pub open spec fn atom_utf8_at(s: Seq<u8>, pos: int, len: int) -> Parsed<Term> {
    match take_slice(s, pos, len) {
        Ok((bytes, end)) => if valid_utf8(bytes) {
            Ok((Term::Atom(decode_utf8(bytes)), end))
        } else {
            Err(BertError::InvalidUTF8Atom(pos as usize))
        },
        Err(e) => Err(e),
    }
}

/// A string: a length of two bytes, then as many bytes.
pub open spec fn string_at(s: Seq<u8>, pos: int) -> Parsed<Term> {
    match take_be(s, pos, 2) {
        Ok((len, start)) => match take_slice(s, start, len as int) {
            Ok((bytes, end)) => Ok((Term::String(bytes), end)),
            Err(e) => Err(e),
        },
        Err(e) => Err(e),
    }
}

/// A binary: a length of four bytes, then as many bytes.
pub open spec fn binary_at(s: Seq<u8>, pos: int) -> Parsed<Term> {
    match take_be(s, pos, 4) {
        Ok((len, start)) => match take_slice(s, start, len as int) {
            Ok((bytes, end)) => Ok((Term::Binary(bytes), end)),
            Err(e) => Err(e),
        },
        Err(e) => Err(e),
    }
}

/// A big integer of `len` digits: a sign byte, 1 for a negative number, then
/// the digits in base 256, least significant first. The bytes are read one
/// by one, so a buffer that is too short fails at its end.
pub open spec fn bigint_at(s: Seq<u8>, pos: int, len: int) -> Parsed<Term> {
    match take_u8(s, pos) {
        Ok((sign, start)) => if start + len <= s.len() {
            Ok(
                (
                    Term::BigInt(signed(sign == 1, le_value(s.subrange(start, start + len)))),
                    start + len,
                ),
            )
        } else {
            Err(BertError::NotEnoughData { offset: s.len() as usize, needed: 1, available: 0 })
        },
        Err(e) => Err(e),
    }
}

/// Whether a read that began at `from` and ended at `to` went forward inside
/// the buffer. Every successful read does (`lemma_term_at_advances`); the
/// functions below ask it so that their recursion is well-founded.
pub open spec fn went_on(s: Seq<u8>, from: int, to: int) -> bool {
    from <= to <= s.len()
}

/// What a read gives where `went_on` does not hold of it, which never happens.
pub open spec fn stalled(pos: int) -> BertError {
    BertError::NotEnoughData { offset: pos as usize, needed: 0, available: 0 }
}

/// The term that stands at `pos`: a tag byte, then what the tag asks for.
pub open spec fn term_at(s: Seq<u8>, pos: int, float_of: FloatParse) -> Parsed<Term>
    decreases s.len() - pos, 0int,
{
    match take_u8(s, pos) {
        Err(e) => Err(e),
        Ok((tag, p)) => if tag == SMALL_INTEGER_EXT {
            small_integer_at(s, p)
        } else if tag == INTEGER_EXT {
            integer_at(s, p)
        } else if tag == FLOAT_EXT {
            old_float_at(s, p, float_of)
        } else if tag == NEW_FLOAT_EXT {
            new_float_at(s, p)
        } else if tag == ATOM_EXT {
            match take_be(s, p, 2) {
                Ok((len, q)) => atom_at(s, q, len as int),
                Err(e) => Err(e),
            }
        } else if tag == SMALL_ATOM_EXT {
            match take_u8(s, p) {
                Ok((len, q)) => atom_at(s, q, len as int),
                Err(e) => Err(e),
            }
        } else if tag == ATOM_UTF8_EXT {
            match take_be(s, p, 2) {
                Ok((len, q)) => atom_utf8_at(s, q, len as int),
                Err(e) => Err(e),
            }
        } else if tag == SMALL_ATOM_UTF8_EXT {
            match take_u8(s, p) {
                Ok((len, q)) => atom_utf8_at(s, q, len as int),
                Err(e) => Err(e),
            }
        } else if tag == SMALL_TUPLE_EXT {
            match take_u8(s, p) {
                Ok((len, q)) => tuple_at(s, q, len as nat, float_of),
                Err(e) => Err(e),
            }
        } else if tag == LARGE_TUPLE_EXT {
            match take_be(s, p, 4) {
                Ok((len, q)) => tuple_at(s, q, len, float_of),
                Err(e) => Err(e),
            }
        } else if tag == NIL_EXT {
            Ok((Term::Nil, p))
        } else if tag == LIST_EXT {
            list_at(s, p, float_of)
        } else if tag == STRING_EXT {
            string_at(s, p)
        } else if tag == BINARY_EXT {
            binary_at(s, p)
        } else if tag == SMALL_BIG_EXT {
            match take_u8(s, p) {
                Ok((len, q)) => bigint_at(s, q, len as int),
                Err(e) => Err(e),
            }
        } else if tag == LARGE_BIG_EXT {
            match take_be(s, p, 4) {
                Ok((len, q)) => bigint_at(s, q, len as int),
                Err(e) => Err(e),
            }
        } else if tag == MAP_EXT {
            map_at(s, p, float_of)
        } else {
            Err(BertError::InvalidTag(pos as usize, tag))
        },
    }
}

/// The `count` terms that stand one behind the other from `pos` on.
pub open spec fn terms_at(s: Seq<u8>, pos: int, count: nat, float_of: FloatParse) -> Parsed<
    Seq<Term>,
>
    decreases s.len() - pos, count + 1,
{
    if count == 0 {
        Ok((Seq::empty(), pos))
    } else {
        match terms_at(s, pos, (count - 1) as nat, float_of) {
            Err(e) => Err(e),
            Ok((terms, p)) => if !went_on(s, pos, p) {
                Err(stalled(p))
            } else {
                match term_at(s, p, float_of) {
                    Err(e) => Err(e),
                    Ok((term, end)) => Ok((terms.push(term), end)),
                }
            },
        }
    }
}

/// The `count` pairs of a key and a value that stand from `pos` on.
pub open spec fn pairs_at(s: Seq<u8>, pos: int, count: nat, float_of: FloatParse) -> Parsed<
    (Seq<Term>, Seq<Term>),
>
    decreases s.len() - pos, count + 1,
{
    if count == 0 {
        Ok(((Seq::empty(), Seq::empty()), pos))
    } else {
        match pairs_at(s, pos, (count - 1) as nat, float_of) {
            Err(e) => Err(e),
            Ok((pairs, p)) => if !went_on(s, pos, p) {
                Err(stalled(p))
            } else {
                match term_at(s, p, float_of) {
                    Err(e) => Err(e),
                    Ok((key, q)) => if !went_on(s, p, q) {
                        Err(stalled(q))
                    } else {
                        match term_at(s, q, float_of) {
                            Err(e) => Err(e),
                            Ok((val, end)) => Ok(((pairs.0.push(key), pairs.1.push(val)), end)),
                        }
                    },
                }
            },
        }
    }
}

/// A tuple of `len` elements.
pub open spec fn tuple_at(s: Seq<u8>, pos: int, len: nat, float_of: FloatParse) -> Parsed<Term>
    decreases s.len() - pos, len + 2,
{
    match terms_at(s, pos, len, float_of) {
        Ok((terms, end)) => Ok((Term::Tuple(terms), end)),
        Err(e) => Err(e),
    }
}

/// A list: a length of four bytes, as many elements, and a tail. A tail that
/// is the empty list ends a proper list and is dropped; any other tail
/// becomes the last element.
pub open spec fn list_at(s: Seq<u8>, pos: int, float_of: FloatParse) -> Parsed<Term>
    decreases s.len() - pos, 0int,
{
    match take_be(s, pos, 4) {
        Err(e) => Err(e),
        Ok((len, p)) => match terms_at(s, p, len, float_of) {
            Err(e) => Err(e),
            Ok((terms, q)) => if !went_on(s, p, q) {
                Err(stalled(q))
            } else {
                match term_at(s, q, float_of) {
                    Err(e) => Err(e),
                    Ok((tail, end)) => if tail is Nil {
                        Ok((Term::List(terms), end))
                    } else {
                        Ok((Term::List(terms.push(tail)), end))
                    },
                }
            },
        },
    }
}

/// A map: a number of pairs in four bytes, then each key with its value.
pub open spec fn map_at(s: Seq<u8>, pos: int, float_of: FloatParse) -> Parsed<Term>
    decreases s.len() - pos, 0int,
{
    match take_be(s, pos, 4) {
        Err(e) => Err(e),
        Ok((len, p)) => match pairs_at(s, p, len, float_of) {
            Ok((pairs, end)) => Ok((Term::Mapping(pairs.0, pairs.1), end)),
            Err(e) => Err(e),
        },
    }
}


/// Once the reading of a run of terms has failed, it fails in the same way
/// however many more terms are asked for.
pub proof fn lemma_terms_at_error(s: Seq<u8>, pos: int, k: nat, n: nat, float_of: FloatParse)
    requires
        k <= n,
        terms_at(s, pos, k, float_of) is Err,
    ensures
        terms_at(s, pos, n, float_of) == terms_at(s, pos, k, float_of),
    decreases n,
{
    if k < n {
        lemma_terms_at_error(s, pos, k, (n - 1) as nat, float_of);
    }
}

/// Once the reading of a run of pairs has failed, it fails in the same way
/// however many more pairs are asked for.
pub proof fn lemma_pairs_at_error(s: Seq<u8>, pos: int, k: nat, n: nat, float_of: FloatParse)
    requires
        k <= n,
        pairs_at(s, pos, k, float_of) is Err,
    ensures
        pairs_at(s, pos, n, float_of) == pairs_at(s, pos, k, float_of),
    decreases n,
{
    if k < n {
        lemma_pairs_at_error(s, pos, k, (n - 1) as nat, float_of);
    }
}


/// The magic byte in front of a term.
pub open spec fn magic_at(s: Seq<u8>, pos: int) -> Parsed<()> {
    match take_u8(s, pos) {
        Ok((magic, end)) => if magic == BERT_MAGIC_NUMBER {
            Ok(((), end))
        } else {
            Err(BertError::InvalidMagicNumber { offset: pos as usize, actual: magic })
        },
        Err(e) => Err(e),
    }
}

/// The first word of a disk log.
pub open spec fn disk_log_magic_at(s: Seq<u8>, pos: int) -> Parsed<()> {
    match take_be(s, pos, 4) {
        Ok((magic, end)) => if magic == DISK_LOG_MAGIC {
            Ok(((), end))
        } else {
            Err(BertError::InvalidDiskLogMagic { offset: pos as usize, actual: magic as u32 })
        },
        Err(e) => Err(e),
    }
}

/// The status word of a disk log: "opened" or "closed".
pub open spec fn disk_log_opened_status_at(s: Seq<u8>, pos: int) -> Parsed<()> {
    match take_be(s, pos, 4) {
        Ok((status, end)) => if status == DISK_LOG_OPENED || status == DISK_LOG_CLOSED {
            Ok(((), end))
        } else {
            Err(
                BertError::InvalidDiskLogOpenedStatus {
                    offset: pos as usize,
                    actual: status as u32,
                },
            )
        },
        Err(e) => Err(e),
    }
}

/// One record of a disk log: a length of four bytes, which is not looked at,
/// the word that marks a record, the magic byte and a term.
pub open spec fn disk_log_term_at(s: Seq<u8>, pos: int, float_of: FloatParse) -> Parsed<Term> {
    match take_be(s, pos, 4) {
        Err(e) => Err(e),
        Ok((_, p)) => match take_be(s, p, 4) {
            Err(e) => Err(e),
            Ok((magic, q)) => if magic != DISK_LOG_TERM_MAGIC {
                Err(BertError::InvalidDiskLogTermMagic { offset: p as usize, actual: magic as u32 })
            } else {
                match magic_at(s, q) {
                    Err(e) => Err(e),
                    Ok((_, r)) => term_at(s, r, float_of),
                }
            },
        },
    }
}

/// 128 to the power of `k`.
pub open spec fn pow128(k: nat) -> nat
    decreases k,
{
    if k == 0 {
        1
    } else {
        128 * pow128((k - 1) as nat)
    }
}

/// The rest of a length prefix of which `count` bytes were read, with `acc`
/// as the number so far. Each byte holds seven bits of the number, the low
/// ones first; a byte below 128 is the last. The prefix also ends where the
/// buffer ends. More than eight bytes are too many.
pub open spec fn varint_from(s: Seq<u8>, pos: int, start: int, count: nat, acc: nat) -> Parsed<u64>
    decreases 8 - count,
{
    if count >= 8 {
        Err(BertError::VarintTooLarge(start as usize))
    } else if !(0 <= pos < s.len()) {
        Ok((acc as u64, pos))
    } else {
        let acc = acc + (s[pos] % 128) as nat * pow128(count);
        if s[pos] < 128 {
            Ok((acc as u64, pos + 1))
        } else {
            varint_from(s, pos + 1, start, count + 1, acc)
        }
    }
}

/// The length prefix at `pos`.
pub open spec fn varint_at(s: Seq<u8>, pos: int) -> Parsed<u64> {
    varint_from(s, pos, pos, 0, 0)
}

/// The next term of a buffer that holds a magic byte and a term: nothing at
/// the end of the buffer.
pub open spec fn bert1_at(s: Seq<u8>, pos: int, float_of: FloatParse) -> Option<Parsed<Term>> {
    if pos >= s.len() {
        None
    } else {
        Some(
            match magic_at(s, pos) {
                Err(e) => Err(e),
                Ok((_, p)) => term_at(s, p, float_of),
            },
        )
    }
}

/// The next term of a stream of records, each a length prefix, which is not
/// looked at, a magic byte and a term: nothing at the end of the buffer.
pub open spec fn bert2_at(s: Seq<u8>, pos: int, float_of: FloatParse) -> Option<Parsed<Term>> {
    if pos >= s.len() {
        None
    } else {
        Some(
            match varint_at(s, pos) {
                Err(e) => Err(e),
                Ok((_, p)) => match magic_at(s, p) {
                    Err(e) => Err(e),
                    Ok((_, q)) => term_at(s, q, float_of),
                },
            },
        )
    }
}

/// The next term of a disk log: nothing at the end of the buffer. The log
/// begins with its magic word and its status word; its records follow.
pub open spec fn disk_log_at(s: Seq<u8>, pos: int, float_of: FloatParse) -> Option<Parsed<Term>> {
    if pos >= s.len() {
        None
    } else if pos == 0 {
        Some(
            match disk_log_magic_at(s, pos) {
                Err(e) => Err(e),
                Ok((_, p)) => match disk_log_opened_status_at(s, p) {
                    Err(e) => Err(e),
                    Ok((_, q)) => disk_log_term_at(s, q, float_of),
                },
            },
        )
    } else {
        Some(disk_log_term_at(s, pos, float_of))
    }
}


/// A run of bytes ends inside the buffer.
pub proof fn lemma_run_len_bounds(s: Seq<u8>, pos: int, zero: bool)
    requires
        0 <= pos <= s.len(),
    ensures
        0 <= run_len(s, pos, zero) <= s.len() - pos,
    decreases s.len() - pos,
{
    if pos < s.len() && (s[pos] == 0) == zero {
        lemma_run_len_bounds(s, pos + 1, zero);
    }
}

/// A term takes at least one byte, and it ends inside the buffer.
pub proof fn lemma_term_at_advances(s: Seq<u8>, pos: int, float_of: FloatParse)
    ensures
        term_at(s, pos, float_of) matches Ok((_, end)) ==> pos < end <= s.len(),
    decreases s.len() - pos, 0int,
{
    if 0 <= pos < s.len() {
        let tag = s[pos];
        let p = pos + 1;
        if tag == FLOAT_EXT {
            lemma_run_len_bounds(s, p, false);
            lemma_run_len_bounds(s, p + run_len(s, p, false), true);
        } else if tag == SMALL_TUPLE_EXT {
            if take_u8(s, p) is Ok {
                lemma_terms_at_advances(s, p + 1, s[p] as nat, float_of);
            }
        } else if tag == LARGE_TUPLE_EXT {
            match take_be(s, p, 4) {
                Ok((len, q)) => lemma_terms_at_advances(s, q, len, float_of),
                Err(_) => {},
            }
        } else if tag == LIST_EXT {
            match take_be(s, p, 4) {
                Ok((len, q)) => {
                    lemma_terms_at_advances(s, q, len, float_of);
                    match terms_at(s, q, len, float_of) {
                        Ok((_, r)) => lemma_term_at_advances(s, r, float_of),
                        Err(_) => {},
                    }
                },
                Err(_) => {},
            }
        } else if tag == MAP_EXT {
            match take_be(s, p, 4) {
                Ok((len, q)) => lemma_pairs_at_advances(s, q, len, float_of),
                Err(_) => {},
            }
        }
    }
}

/// A run of terms is as long as was asked for, takes at least one byte for
/// each term, and ends inside the buffer.
pub proof fn lemma_terms_at_advances(s: Seq<u8>, pos: int, count: nat, float_of: FloatParse)
    requires
        0 <= pos <= s.len(),
    ensures
        terms_at(s, pos, count, float_of) matches Ok((terms, end)) ==> terms.len() == count && pos
            + count <= end <= s.len(),
    decreases s.len() - pos, count + 1,
{
    if count > 0 {
        lemma_terms_at_advances(s, pos, (count - 1) as nat, float_of);
        match terms_at(s, pos, (count - 1) as nat, float_of) {
            Ok((_, p)) => {
                if went_on(s, pos, p) {
                    lemma_term_at_advances(s, p, float_of);
                }
            },
            Err(_) => {},
        }
    }
}

/// A run of pairs has as many keys and as many values as was asked for, takes
/// at least two bytes for each pair, and ends inside the buffer.
pub proof fn lemma_pairs_at_advances(s: Seq<u8>, pos: int, count: nat, float_of: FloatParse)
    requires
        0 <= pos <= s.len(),
    ensures
        pairs_at(s, pos, count, float_of) matches Ok((pairs, end)) ==> pairs.0.len() == count
            && pairs.1.len() == count && pos + 2 * count <= end <= s.len(),
    decreases s.len() - pos, count + 1,
{
    if count > 0 {
        lemma_pairs_at_advances(s, pos, (count - 1) as nat, float_of);
        match pairs_at(s, pos, (count - 1) as nat, float_of) {
            Ok((_, p)) => {
                if went_on(s, pos, p) {
                    lemma_term_at_advances(s, p, float_of);
                    match term_at(s, p, float_of) {
                        Ok((_, q)) => lemma_term_at_advances(s, q, float_of),
                        Err(_) => {},
                    }
                }
            },
            Err(_) => {},
        }
    }
}

} // verus!
