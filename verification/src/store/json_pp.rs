//! Writing the term of a store as JSON.

use vstd::prelude::*;
use vstd::slice::slice_subrange;
use crate::bertterm::Term;
use crate::config::Config;
use crate::float::formatted_float;
use crate::float::is_float_printer;
use crate::pp::json::json_items;
use crate::pp::json::json_pairs;
use crate::pp::json::json_properties;
use crate::pp::json::json_property;
use crate::pp::json::json_term;
use crate::pp::json::push_json_atom;
use crate::pp::json::push_json_escaped;
use crate::store::terms::Tag;
use crate::store::terms::Terms;
use crate::store::terms::end_of;
use crate::store::terms::lemma_pairs_in_bounds;
use crate::store::terms::lemma_pairs_in_prefix;
use crate::store::terms::lemma_property_record;
use crate::store::terms::lemma_term_in_bounds;
use crate::store::terms::lemma_terms_in_bounds;
use crate::store::terms::lemma_terms_in_prefix;
use crate::store::terms::pairs_in;
use crate::store::terms::payload;
use crate::store::terms::terms_in;
use crate::store::terms::value_of;
use crate::text::format_i32;
use crate::wire::push_all;

verus! {

/// Appends to `out` the JSON of the term whose records begin the store, and
/// a line feed. Lists of properties are written as objects where the
/// configuration asks for it. `format_float` gives the text of a
/// floating-point number.
pub fn pp<F: Fn(u64) -> Vec<u8>>(ts: &Terms, config: &Config, out: &mut Vec<u8>, format_float: &F)
    requires
        is_float_printer(*format_float),
        ts.term(0) is Some,
    ensures
        final(out)@ == old(out)@ + json_term(
            value_of(ts.term(0)),
            config.transform_proplists,
            formatted_float(*format_float),
        ) + seq![0x0au8],
{
    let mut pos: usize = 0;
    pp_(ts, config, out, &mut pos, format_float);
    out.push(0x0a);
}

/// The bytes that a record of the store points at.
fn bytes_at(ts: &Terms, off: u32, len: u32) -> (bytes: &[u8])
    requires
        payload(ts.bytes@, off, len) is Some,
    ensures
        Some(bytes@) == payload(ts.bytes@, off, len),
{
    let held = ts.bytes.len();
    assert(off + len <= held);
    slice_subrange(ts.bytes.as_slice(), off as usize, off as usize + len as usize)
}

/// Appends to `out` the JSON of the term whose record stands at `pos`, and
/// moves `pos` behind the records of the term.
fn pp_<F: Fn(u64) -> Vec<u8>>(
    ts: &Terms,
    config: &Config,
    out: &mut Vec<u8>,
    pos: &mut usize,
    format_float: &F,
)
    requires
        is_float_printer(*format_float),
        ts.term(*old(pos) as int) is Some,
    ensures
        *final(pos) == end_of(ts.term(*old(pos) as int)),
        final(out)@ == old(out)@ + json_term(
            value_of(ts.term(*old(pos) as int)),
            config.transform_proplists,
            formatted_float(*format_float),
        ),
    decreases ts.tags@.len() - *old(pos), 0int,
{
    let ghost float_text = formatted_float(*format_float);
    let ghost transform = config.transform_proplists;
    let ghost term = value_of(ts.term(*pos as int));
    proof {
        lemma_term_in_bounds(ts.tags@, ts.bytes@, *pos as int);
    }
    let index = *pos;
    let count = ts.tags.len();
    assert(index < count);
    *pos = index + 1;
    match &ts.tags[index] {
        Tag::Int(n) => {
            let text = format_i32(*n);
            push_all(out, text.as_slice());
            assert(out@ =~= old(out)@ + json_term(term, transform, float_text));
        },
        Tag::BigInt(b) => {
            let text = b.to_decimal();
            out.push(0x22);
            push_all(out, text.as_slice());
            out.push(0x22);
            assert(out@ =~= old(out)@ + json_term(term, transform, float_text));
        },
        Tag::Float(bits) => {
            let text = format_float(*bits);
            push_all(out, text.as_slice());
            assert(out@ =~= old(out)@ + json_term(term, transform, float_text));
        },
        Tag::Atom { off, len } => {
            let name = bytes_at(ts, *off, *len);
            proof {
                vstd::utf8::decode_utf8_encode_utf8(name@);
            }
            push_json_atom(name, out);
            assert(out@ =~= old(out)@ + json_term(term, transform, float_text));
        },
        Tag::Binary { off, len } => {
            out.push(0x22);
            push_json_escaped(bytes_at(ts, *off, *len), out);
            out.push(0x22);
            assert(out@ =~= old(out)@ + json_term(term, transform, float_text));
        },
        Tag::String { off, len } => {
            out.push(0x22);
            push_json_escaped(bytes_at(ts, *off, *len), out);
            out.push(0x22);
            assert(out@ =~= old(out)@ + json_term(term, transform, float_text));
        },
        Tag::Tuple(len) => {
            proof {
                lemma_terms_in_bounds(ts.tags@, ts.bytes@, index + 1, *len as nat);
            }
            pp_seq(ts, config, *len, out, pos, format_float);
            assert(out@ =~= old(out)@ + json_term(term, transform, float_text));
        },
        Tag::List(len) => {
            proof {
                lemma_terms_in_bounds(ts.tags@, ts.bytes@, index + 1, *len as nat);
            }
            pp_seq(ts, config, *len, out, pos, format_float);
            proof {
                if *len == 0 {
                    assert(terms_in(ts.tags@, ts.bytes@, index + 1, 0) == Some(
                        (Seq::<Term>::empty(), index + 1),
                    ));
                    assert(out@ =~= old(out)@ + seq![0x5bu8, 0x5du8]);
                }
            }
            assert(out@ =~= old(out)@ + json_term(term, transform, float_text));
        },
        Tag::Proplist(len) => {
            proof {
                lemma_terms_in_bounds(ts.tags@, ts.bytes@, index + 1, *len as nat);
            }
            if config.transform_proplists {
                pp_props(ts, config, *len, out, pos, format_float);
            } else {
                pp_seq(ts, config, *len, out, pos, format_float);
            }
            assert(out@ =~= old(out)@ + json_term(term, transform, float_text));
        },
        Tag::Mapping(len) => {
            proof {
                lemma_pairs_in_bounds(ts.tags@, ts.bytes@, index + 1, *len as nat);
            }
            pp_map(ts, config, *len, out, pos, format_float);
            assert(out@ =~= old(out)@ + json_term(term, transform, float_text));
        },
    }
}

/// Appends to `out`, as a JSON object, the `len` properties whose records
/// stand from `pos` on, and moves `pos` behind them.
fn pp_props<F: Fn(u64) -> Vec<u8>>(
    ts: &Terms,
    config: &Config,
    len: u32,
    out: &mut Vec<u8>,
    pos: &mut usize,
    format_float: &F,
)
    requires
        is_float_printer(*format_float),
        *old(pos) <= ts.tags@.len(),
        terms_in(ts.tags@, ts.bytes@, *old(pos) as int, len as nat) is Some,
        Term::List(
            value_of(terms_in(ts.tags@, ts.bytes@, *old(pos) as int, len as nat)),
        ).is_proplist(),
    ensures
        *final(pos) == end_of(terms_in(ts.tags@, ts.bytes@, *old(pos) as int, len as nat)),
        final(out)@ == old(out)@ + seq![0x7bu8] + json_properties(
            value_of(terms_in(ts.tags@, ts.bytes@, *old(pos) as int, len as nat)),
            len as nat,
            config.transform_proplists,
            formatted_float(*format_float),
        ) + seq![0x7du8],
    decreases ts.tags@.len() - *old(pos), 1int,
{
    let ghost float_text = formatted_float(*format_float);
    let ghost transform = config.transform_proplists;
    let ghost start = *pos as int;
    let ghost elems = value_of(terms_in(ts.tags@, ts.bytes@, start, len as nat));
    proof {
        lemma_terms_in_bounds(ts.tags@, ts.bytes@, start, len as nat);
        assert(Term::List(elems)->List_0 == elems);
    }
    out.push(0x7b);
    let ghost head = out@;
    let mut i: u32 = 0;
    while i < len
        invariant
            is_float_printer(*format_float),
            float_text == formatted_float(*format_float),
            transform == config.transform_proplists,
            i <= len,
            start == *old(pos),
            0 <= start <= *pos,
            start <= ts.tags@.len(),
            terms_in(ts.tags@, ts.bytes@, start, len as nat) is Some,
            elems == value_of(terms_in(ts.tags@, ts.bytes@, start, len as nat)),
            elems.len() == len,
            forall|j: int| 0 <= j < elems.len() ==> (#[trigger] elems[j]).is_proplist_entry(),
            terms_in(ts.tags@, ts.bytes@, start, i as nat) == Some(
                (elems.subrange(0, i as int), *pos as int),
            ),
            out@ == head + json_properties(elems, i as nat, transform, float_text),
        decreases len - i,
    {
        if i > 0 {
            out.push(0x2c);
        }
        proof {
            lemma_terms_in_prefix(ts.tags@, ts.bytes@, start, (i + 1) as nat, len as nat);
            assert(elems.subrange(0, i + 1)[i as int] == elems[i as int]);
            assert(elems[i as int].is_proplist_entry());
        }
        pp_kv(ts, config, out, pos, format_float);
        i = i + 1;
        assert(out@ =~= head + json_properties(elems, i as nat, transform, float_text));
    }
    out.push(0x7d);
    proof {
        lemma_terms_in_prefix(ts.tags@, ts.bytes@, start, len as nat, len as nat);
        assert(out@ =~= old(out)@ + seq![0x7bu8] + json_properties(
            elems,
            len as nat,
            transform,
            float_text,
        ) + seq![0x7du8]);
    }
}

/// Appends to `out`, as a JSON object, the `len` pairs of a key and a value
/// whose records stand from `pos` on, and moves `pos` behind them.
fn pp_map<F: Fn(u64) -> Vec<u8>>(
    ts: &Terms,
    config: &Config,
    len: u32,
    out: &mut Vec<u8>,
    pos: &mut usize,
    format_float: &F,
)
    requires
        is_float_printer(*format_float),
        *old(pos) <= ts.tags@.len(),
        pairs_in(ts.tags@, ts.bytes@, *old(pos) as int, len as nat) is Some,
    ensures
        *final(pos) == end_of(pairs_in(ts.tags@, ts.bytes@, *old(pos) as int, len as nat)),
        final(out)@ == old(out)@ + seq![0x7bu8] + json_pairs(
            Term::Mapping(
                value_of(pairs_in(ts.tags@, ts.bytes@, *old(pos) as int, len as nat)).0,
                value_of(pairs_in(ts.tags@, ts.bytes@, *old(pos) as int, len as nat)).1,
            ),
            len as nat,
            config.transform_proplists,
            formatted_float(*format_float),
        ) + seq![0x7du8],
    decreases ts.tags@.len() - *old(pos), 1int,
{
    let ghost float_text = formatted_float(*format_float);
    let ghost transform = config.transform_proplists;
    let ghost start = *pos as int;
    let ghost pairs = value_of(pairs_in(ts.tags@, ts.bytes@, start, len as nat));
    let ghost term = Term::Mapping(pairs.0, pairs.1);
    proof {
        lemma_pairs_in_bounds(ts.tags@, ts.bytes@, start, len as nat);
    }
    out.push(0x7b);
    let ghost head = out@;
    let mut i: u32 = 0;
    while i < len
        invariant
            is_float_printer(*format_float),
            float_text == formatted_float(*format_float),
            transform == config.transform_proplists,
            i <= len,
            start == *old(pos),
            0 <= start <= *pos,
            start <= ts.tags@.len(),
            pairs_in(ts.tags@, ts.bytes@, start, len as nat) is Some,
            pairs == value_of(pairs_in(ts.tags@, ts.bytes@, start, len as nat)),
            pairs.0.len() == len,
            pairs.1.len() == len,
            term == Term::Mapping(pairs.0, pairs.1),
            pairs_in(ts.tags@, ts.bytes@, start, i as nat) == Some(
                ((pairs.0.subrange(0, i as int), pairs.1.subrange(0, i as int)), *pos as int),
            ),
            out@ == head + json_pairs(term, i as nat, transform, float_text),
        decreases len - i,
    {
        if i > 0 {
            out.push(0x2c);
        }
        proof {
            lemma_pairs_in_prefix(ts.tags@, ts.bytes@, start, (i + 1) as nat, len as nat);
            assert(pairs.0.subrange(0, i + 1)[i as int] == pairs.0[i as int]);
            assert(pairs.1.subrange(0, i + 1)[i as int] == pairs.1[i as int]);
            lemma_term_in_bounds(ts.tags@, ts.bytes@, *pos as int);
        }
        pp_(ts, config, out, pos, format_float);
        out.push(0x3a);
        pp_(ts, config, out, pos, format_float);
        i = i + 1;
        assert(out@ =~= head + json_pairs(term, i as nat, transform, float_text));
    }
    out.push(0x7d);
    proof {
        lemma_pairs_in_prefix(ts.tags@, ts.bytes@, start, len as nat, len as nat);
        assert(out@ =~= old(out)@ + seq![0x7bu8] + json_pairs(
            term,
            len as nat,
            transform,
            float_text,
        ) + seq![0x7du8]);
    }
}

/// Appends to `out`, as a JSON array, the `len` terms whose records stand
/// from `pos` on, and moves `pos` behind them.
fn pp_seq<F: Fn(u64) -> Vec<u8>>(
    ts: &Terms,
    config: &Config,
    len: u32,
    out: &mut Vec<u8>,
    pos: &mut usize,
    format_float: &F,
)
    requires
        is_float_printer(*format_float),
        *old(pos) <= ts.tags@.len(),
        terms_in(ts.tags@, ts.bytes@, *old(pos) as int, len as nat) is Some,
    ensures
        *final(pos) == end_of(terms_in(ts.tags@, ts.bytes@, *old(pos) as int, len as nat)),
        final(out)@ == old(out)@ + seq![0x5bu8] + json_items(
            value_of(terms_in(ts.tags@, ts.bytes@, *old(pos) as int, len as nat)),
            len as nat,
            config.transform_proplists,
            formatted_float(*format_float),
        ) + seq![0x5du8],
    decreases ts.tags@.len() - *old(pos), 1int,
{
    let ghost float_text = formatted_float(*format_float);
    let ghost transform = config.transform_proplists;
    let ghost start = *pos as int;
    let ghost elems = value_of(terms_in(ts.tags@, ts.bytes@, start, len as nat));
    proof {
        lemma_terms_in_bounds(ts.tags@, ts.bytes@, start, len as nat);
    }
    out.push(0x5b);
    let ghost head = out@;
    let mut i: u32 = 0;
    while i < len
        invariant
            is_float_printer(*format_float),
            float_text == formatted_float(*format_float),
            transform == config.transform_proplists,
            i <= len,
            start == *old(pos),
            0 <= start <= *pos,
            start <= ts.tags@.len(),
            terms_in(ts.tags@, ts.bytes@, start, len as nat) is Some,
            elems == value_of(terms_in(ts.tags@, ts.bytes@, start, len as nat)),
            elems.len() == len,
            terms_in(ts.tags@, ts.bytes@, start, i as nat) == Some(
                (elems.subrange(0, i as int), *pos as int),
            ),
            out@ == head + json_items(elems, i as nat, transform, float_text),
        decreases len - i,
    {
        if i > 0 {
            out.push(0x2c);
        }
        proof {
            lemma_terms_in_prefix(ts.tags@, ts.bytes@, start, (i + 1) as nat, len as nat);
            assert(elems.subrange(0, i + 1)[i as int] == elems[i as int]);
        }
        pp_(ts, config, out, pos, format_float);
        i = i + 1;
        assert(out@ =~= head + json_items(elems, i as nat, transform, float_text));
    }
    out.push(0x5d);
    proof {
        lemma_terms_in_prefix(ts.tags@, ts.bytes@, start, len as nat, len as nat);
        assert(out@ =~= old(out)@ + seq![0x5bu8] + json_items(
            elems,
            len as nat,
            transform,
            float_text,
        ) + seq![0x5du8]);
    }
}

/// Appends to `out`, as the member of a JSON object, the property whose
/// records stand from `pos` on, and moves `pos` behind them.
fn pp_kv<F: Fn(u64) -> Vec<u8>>(
    ts: &Terms,
    config: &Config,
    out: &mut Vec<u8>,
    pos: &mut usize,
    format_float: &F,
)
    requires
        is_float_printer(*format_float),
        ts.term(*old(pos) as int) is Some,
        value_of(ts.term(*old(pos) as int)).is_proplist_entry(),
    ensures
        *final(pos) == end_of(ts.term(*old(pos) as int)),
        final(out)@ == old(out)@ + json_property(
            value_of(ts.term(*old(pos) as int)),
            config.transform_proplists,
            formatted_float(*format_float),
        ),
    decreases ts.tags@.len() - *old(pos), 0int,
{
    proof {
        lemma_term_in_bounds(ts.tags@, ts.bytes@, *pos as int);
        lemma_property_record(ts.tags@, ts.bytes@, *pos as int);
    }
    let count = ts.tags.len();
    assert(*pos < count);
    // The record of the tuple is passed over.
    *pos = *pos + 1;
    pp_(ts, config, out, pos, format_float);
    out.push(0x3a);
    pp_(ts, config, out, pos, format_float);
    proof {
        let entry = value_of(ts.term(*old(pos) as int));
        assert(out@ =~= old(out)@ + json_property(
            entry,
            config.transform_proplists,
            formatted_float(*format_float),
        ));
    }
}

} // verus!
