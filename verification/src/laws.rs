//! What holds of the decoder on whole classes of buffers.

use vstd::prelude::*;
use crate::bertterm::BertTerm;
use crate::bertterm::Term;
use crate::consts::BERT_MAGIC_NUMBER;
use crate::consts::INTEGER_EXT;
use crate::consts::LARGE_TUPLE_EXT;
use crate::consts::LIST_EXT;
use crate::consts::MAP_EXT;
use crate::consts::SMALL_INTEGER_EXT;
use crate::consts::SMALL_TUPLE_EXT;
use crate::error::BertError;
use crate::grammar::FloatParse;
use crate::grammar::Parsed;
use crate::grammar::bert1_at;
use crate::grammar::bert2_at;
use crate::grammar::disk_log_at;
use crate::grammar::lemma_pairs_at_advances;
use crate::grammar::lemma_term_at_advances;
use crate::grammar::lemma_terms_at_advances;
use crate::grammar::pairs_at;
use crate::grammar::take_be;
use crate::grammar::take_u8;
use crate::grammar::term_at;
use crate::grammar::terms_at;
use crate::grammar::went_on;
use crate::parser::framed;
use crate::store::parser::Stored;
use crate::store::parser::stored_next;
use crate::wire::be_bytes;
use crate::wire::lemma_be_round_trip;
use crate::wire::pow256;
use crate::wire::unsigned32;

verus! {

/// The magic byte, the tag of a small integer and one more byte are decoded
/// as the integer that the byte is, whatever the byte.
pub proof fn lemma_small_integer(i: u8, float_of: FloatParse)
    ensures
        bert1_at(seq![BERT_MAGIC_NUMBER, SMALL_INTEGER_EXT, i], 0, float_of) == Some(
            Ok::<(Term, int), BertError>((Term::Int(i as i32), 3int)),
        ),
{
}

/// The magic byte, the tag of an integer and the four bytes of a number in
/// two's complement, most significant first, are decoded as that number.
pub proof fn lemma_integer(n: i32, float_of: FloatParse)
    ensures
        bert1_at(
            seq![BERT_MAGIC_NUMBER, INTEGER_EXT] + be_bytes(unsigned32(n as int), 4),
            0,
            float_of,
        ) == Some(Ok::<(Term, int), BertError>((Term::Int(n), 6int))),
{
    let word = unsigned32(n as int);
    let buf = seq![BERT_MAGIC_NUMBER, INTEGER_EXT] + be_bytes(word, 4);
    assert(pow256(4) == 0x1_0000_0000) by {
        reveal_with_fuel(pow256, 5);
    }
    lemma_be_round_trip(word, 4);
    assert(buf.subrange(2, 6) =~= be_bytes(word, 4));
}

/// Every map in a decoded term has as many values as keys.
pub proof fn lemma_decoded_is_paired(s: Seq<u8>, pos: int, float_of: FloatParse)
    ensures
        term_at(s, pos, float_of) matches Ok((term, _)) ==> term.is_paired(),
    decreases s.len() - pos, 0int,
{
    if 0 <= pos < s.len() {
        let tag = s[pos];
        let p = pos + 1;
        if tag == SMALL_TUPLE_EXT {
            if take_u8(s, p) is Ok {
                lemma_decoded_run_is_paired(s, p + 1, s[p] as nat, float_of);
            }
        } else if tag == LARGE_TUPLE_EXT {
            match take_be(s, p, 4) {
                Ok((len, q)) => lemma_decoded_run_is_paired(s, q, len, float_of),
                Err(_) => {},
            }
        } else if tag == LIST_EXT {
            match take_be(s, p, 4) {
                Ok((len, q)) => {
                    lemma_decoded_run_is_paired(s, q, len, float_of);
                    lemma_terms_at_advances(s, q, len, float_of);
                    match terms_at(s, q, len, float_of) {
                        Ok((_, r)) => lemma_decoded_is_paired(s, r, float_of),
                        Err(_) => {},
                    }
                },
                Err(_) => {},
            }
        } else if tag == MAP_EXT {
            match take_be(s, p, 4) {
                Ok((len, q)) => {
                    lemma_decoded_pairs_are_paired(s, q, len, float_of);
                    lemma_pairs_at_advances(s, q, len, float_of);
                },
                Err(_) => {},
            }
        }
    }
}

/// Every map in a run of decoded terms has as many values as keys.
pub proof fn lemma_decoded_run_is_paired(s: Seq<u8>, pos: int, count: nat, float_of: FloatParse)
    requires
        0 <= pos <= s.len(),
    ensures
        terms_at(s, pos, count, float_of) matches Ok((terms, _)) ==> forall|i: int|
            0 <= i < terms.len() ==> (#[trigger] terms[i]).is_paired(),
    decreases s.len() - pos, count + 1,
{
    if count > 0 {
        lemma_decoded_run_is_paired(s, pos, (count - 1) as nat, float_of);
        lemma_terms_at_advances(s, pos, (count - 1) as nat, float_of);
        match terms_at(s, pos, (count - 1) as nat, float_of) {
            Ok((_, p)) => {
                if went_on(s, pos, p) {
                    lemma_decoded_is_paired(s, p, float_of);
                }
            },
            Err(_) => {},
        }
    }
}

/// Every map in the keys and the values of a run of decoded pairs has as
/// many values as keys.
pub proof fn lemma_decoded_pairs_are_paired(
    s: Seq<u8>,
    pos: int,
    count: nat,
    float_of: FloatParse,
)
    requires
        0 <= pos <= s.len(),
    ensures
        pairs_at(s, pos, count, float_of) matches Ok((pairs, _)) ==> (forall|i: int|
            0 <= i < pairs.0.len() ==> (#[trigger] pairs.0[i]).is_paired()) && (forall|i: int|
            0 <= i < pairs.1.len() ==> (#[trigger] pairs.1[i]).is_paired()),
    decreases s.len() - pos, count + 1,
{
    if count > 0 {
        lemma_decoded_pairs_are_paired(s, pos, (count - 1) as nat, float_of);
        lemma_pairs_at_advances(s, pos, (count - 1) as nat, float_of);
        match pairs_at(s, pos, (count - 1) as nat, float_of) {
            Ok((_, p)) => {
                if went_on(s, pos, p) {
                    lemma_decoded_is_paired(s, p, float_of);
                    lemma_term_at_advances(s, p, float_of);
                    match term_at(s, p, float_of) {
                        Ok((_, q)) => lemma_decoded_is_paired(s, q, float_of),
                        Err(_) => {},
                    }
                }
            },
            Err(_) => {},
        }
    }
}

/// Once a term of a stream could not be read, no term follows: whatever the
/// framing, the call that failed has left the read position where the next
/// call finds nothing.
pub proof fn lemma_no_term_after_a_failure(
    parsed: Option<Parsed<Term>>,
    s: Seq<u8>,
    start: int,
    r: Option<Result<BertTerm, BertError>>,
    end: int,
    float_of: FloatParse,
)
    requires
        framed(parsed, s, start, r, end),
        r matches Some(Err(_)),
    ensures
        bert1_at(s, end, float_of) is None,
        bert2_at(s, end, float_of) is None,
        disk_log_at(s, end, float_of) is None,
{
}

/// Once a term of a stream could not be read into a store, no term follows.
pub proof fn lemma_no_record_after_a_failure(
    parsed: Option<Parsed<Term>>,
    s: Seq<u8>,
    start: int,
    r: Option<Result<(), BertError>>,
    end: int,
    before: Stored,
    after: Stored,
    float_of: FloatParse,
)
    requires
        stored_next(parsed, s, start, r, end, before, after),
        r matches Some(Err(_)),
    ensures
        bert1_at(s, end, float_of) is None,
        bert2_at(s, end, float_of) is None,
        disk_log_at(s, end, float_of) is None,
{
}

} // verus!
