//! Writing the term of a store as Erlang source text.

use vstd::prelude::*;
use vstd::slice::slice_subrange;
use vstd::utf8::encode_utf8;
use crate::bertterm::Term;
use crate::config::Config;
use crate::float::formatted_float;
use crate::float::is_float_printer;
use crate::pp::erlang::ErlangPrettyPrinter;
use crate::pp::erlang::Layout;
use crate::pp::erlang::deeper;
use crate::pp::erlang::erlang_items;
use crate::pp::erlang::erlang_pairs;
use crate::pp::erlang::erlang_term;
use crate::pp::erlang::is_small;
use crate::pp::erlang::line_start;
use crate::store::terms::Tag;
use crate::store::terms::Terms;
use crate::store::terms::end_of;
use crate::store::terms::lemma_pairs_in_bounds;
use crate::store::terms::lemma_pairs_in_prefix;
use crate::store::terms::lemma_simple_record;
use crate::store::terms::lemma_term_in_bounds;
use crate::store::terms::lemma_terms_in_bounds;
use crate::store::terms::lemma_terms_in_prefix;
use crate::store::terms::pairs_in;
use crate::store::terms::payload;
use crate::store::terms::terms_in;
use crate::store::terms::value_of;
use crate::text::format_i32;
use crate::wire::push_all;

verus! {

/// The layout that a configuration asks for.
pub open spec fn layout_of(config: Config) -> Layout {
    Layout { indent_width: config.indent, max_terms_per_line: config.short_collection }
}

/// Appends to `out` the Erlang source text of the term whose records begin
/// the store, the terminator of the configuration and a line feed.
/// `format_float` gives the text of a floating-point number.
pub fn pp<F: Fn(u64) -> Vec<u8>>(ts: &Terms, config: &Config, out: &mut Vec<u8>, format_float: &F)
    requires
        is_float_printer(*format_float),
        ts.term(0) is Some,
    ensures
        final(out)@ == old(out)@ + erlang_term(
            value_of(ts.term(0)),
            0,
            layout_of(*config),
            formatted_float(*format_float),
        ) + encode_utf8(config.terminator@) + seq![0x0au8],
{
    let printer = ErlangPrettyPrinter::new(
        config.indent,
        config.short_collection,
        config.terminator,
    );
    let mut pos: usize = 0;
    pp_(ts, &printer, out, &mut pos, 0, format_float);
    push_all(out, config.terminator.as_bytes());
    out.push(0x0a);
}

/// The bytes that a record of the store points at.
fn bytes_at(ts: &Terms, off: u32, len: u32) -> (bytes: &[u8])
    requires
        payload(ts.bytes@, off, len) is Some,
    ensures
        Some(bytes@) == payload(ts.bytes@, off, len),
{
    let held = ts.bytes.len();
    assert(off + len <= held);
    slice_subrange(ts.bytes.as_slice(), off as usize, off as usize + len as usize)
}

/// Whether the `len` terms whose records stand from `start` on go on one
/// line: they are no more than `max`, and all of them are basic.
fn small_collection(ts: &Terms, start: usize, len: u32, max: usize) -> (small: bool)
    requires
        start <= ts.tags@.len(),
        terms_in(ts.tags@, ts.bytes@, start as int, len as nat) is Some,
    ensures
        small == is_small(
            value_of(terms_in(ts.tags@, ts.bytes@, start as int, len as nat)),
            (Layout { indent_width: 0, max_terms_per_line: max }),
        ),
{
    let ghost elems = value_of(terms_in(ts.tags@, ts.bytes@, start as int, len as nat));
    proof {
        lemma_terms_in_bounds(ts.tags@, ts.bytes@, start as int, len as nat);
    }
    let count = ts.tags.len();
    if len as usize > max {
        return false;
    }
    let mut k: u32 = 0;
    while k < len
        invariant
            k <= len,
            count == ts.tags@.len(),
            start + len <= count,
            terms_in(ts.tags@, ts.bytes@, start as int, len as nat) is Some,
            elems == value_of(terms_in(ts.tags@, ts.bytes@, start as int, len as nat)),
            elems.len() == len,
            terms_in(ts.tags@, ts.bytes@, start as int, k as nat) == Some(
                (elems.subrange(0, k as int), start + k),
            ),
            forall|j: int| 0 <= j < k ==> (#[trigger] elems[j]).is_basic(),
        decreases len - k,
    {
        proof {
            lemma_terms_in_prefix(ts.tags@, ts.bytes@, start as int, (k + 1) as nat, len as nat);
            assert(elems.subrange(0, k + 1)[k as int] == elems[k as int]);
            lemma_simple_record(ts.tags@, ts.bytes@, start + k);
        }
        if !ts.tags[start + k as usize].is_simple() {
            assert(!elems[k as int].is_basic());
            return false;
        }
        k = k + 1;
    }
    true
}

/// Whether the `len` pairs whose records stand from `start` on go on one
/// line: they are no more than `max`, and all keys and values are basic.
fn small_pairs(ts: &Terms, start: usize, len: u32, max: usize) -> (small: bool)
    requires
        start <= ts.tags@.len(),
        pairs_in(ts.tags@, ts.bytes@, start as int, len as nat) is Some,
    ensures
        small == (is_small(
            value_of(pairs_in(ts.tags@, ts.bytes@, start as int, len as nat)).0,
            (Layout { indent_width: 0, max_terms_per_line: max }),
        ) && is_small(
            value_of(pairs_in(ts.tags@, ts.bytes@, start as int, len as nat)).1,
            (Layout { indent_width: 0, max_terms_per_line: max }),
        )),
{
    let ghost pairs = value_of(pairs_in(ts.tags@, ts.bytes@, start as int, len as nat));
    proof {
        lemma_pairs_in_bounds(ts.tags@, ts.bytes@, start as int, len as nat);
    }
    let count = ts.tags.len();
    if len as usize > max {
        return false;
    }
    let mut k: u32 = 0;
    let mut index: usize = start;
    while k < len
        invariant
            k <= len,
            count == ts.tags@.len(),
            start + 2 * len <= count,
            index == start + 2 * k,
            pairs_in(ts.tags@, ts.bytes@, start as int, len as nat) is Some,
            pairs == value_of(pairs_in(ts.tags@, ts.bytes@, start as int, len as nat)),
            pairs.0.len() == len,
            pairs.1.len() == len,
            pairs_in(ts.tags@, ts.bytes@, start as int, k as nat) == Some(
                ((pairs.0.subrange(0, k as int), pairs.1.subrange(0, k as int)), index as int),
            ),
            forall|j: int| 0 <= j < k ==> (#[trigger] pairs.0[j]).is_basic(),
            forall|j: int| 0 <= j < k ==> (#[trigger] pairs.1[j]).is_basic(),
        decreases len - k,
    {
        proof {
            lemma_pairs_in_prefix(ts.tags@, ts.bytes@, start as int, (k + 1) as nat, len as nat);
            assert(pairs.0.subrange(0, k + 1)[k as int] == pairs.0[k as int]);
            assert(pairs.1.subrange(0, k + 1)[k as int] == pairs.1[k as int]);
            lemma_simple_record(ts.tags@, ts.bytes@, index as int);
        }
        if !ts.tags[index].is_simple() {
            assert(!pairs.0[k as int].is_basic());
            return false;
        }
        proof {
            lemma_simple_record(ts.tags@, ts.bytes@, index + 1);
        }
        if !ts.tags[index + 1].is_simple() {
            assert(!pairs.1[k as int].is_basic());
            return false;
        }
        index = index + 2;
        k = k + 1;
    }
    true
}

/// Appends to `out` the text of the term whose record stands at `pos`, at
/// nesting depth `depth`, and moves `pos` behind the records of the term.
fn pp_<F: Fn(u64) -> Vec<u8>>(
    ts: &Terms,
    printer: &ErlangPrettyPrinter,
    out: &mut Vec<u8>,
    pos: &mut usize,
    depth: usize,
    format_float: &F,
)
    requires
        is_float_printer(*format_float),
        ts.term(*old(pos) as int) is Some,
    ensures
        *final(pos) == end_of(ts.term(*old(pos) as int)),
        final(out)@ == old(out)@ + erlang_term(
            value_of(ts.term(*old(pos) as int)),
            depth,
            printer.layout(),
            formatted_float(*format_float),
        ),
    decreases ts.tags@.len() - *old(pos), 0int,
{
    let ghost float_text = formatted_float(*format_float);
    let ghost layout = printer.layout();
    let ghost term = value_of(ts.term(*pos as int));
    proof {
        lemma_term_in_bounds(ts.tags@, ts.bytes@, *pos as int);
    }
    let index = *pos;
    let count = ts.tags.len();
    assert(index < count);
    *pos = index + 1;
    match &ts.tags[index] {
        Tag::Int(n) => {
            let text = format_i32(*n);
            push_all(out, text.as_slice());
        },
        Tag::BigInt(b) => {
            let text = b.to_decimal();
            push_all(out, text.as_slice());
        },
        Tag::Float(bits) => {
            let text = format_float(*bits);
            push_all(out, text.as_slice());
        },
        Tag::Atom { off, len } => {
            let name = bytes_at(ts, *off, *len);
            proof {
                vstd::utf8::decode_utf8_encode_utf8(name@);
            }
            push_all(out, name);
        },
        Tag::Binary { off, len } => {
            let open: Vec<u8> = vec![0x3cu8, 0x3cu8, 0x22u8];
            let close: Vec<u8> = vec![0x22u8, 0x3eu8, 0x3eu8];
            printer.write_string(bytes_at(ts, *off, *len), out, open.as_slice(), close.as_slice());
            assert(out@ =~= old(out)@ + erlang_term(term, depth, layout, float_text));
        },
        Tag::String { off, len } => {
            let quote: Vec<u8> = vec![0x22u8];
            printer.write_string(bytes_at(ts, *off, *len), out, quote.as_slice(), quote.as_slice());
            assert(out@ =~= old(out)@ + erlang_term(term, depth, layout, float_text));
        },
        Tag::Tuple(len) => {
            proof {
                lemma_terms_in_bounds(ts.tags@, ts.bytes@, index + 1, *len as nat);
            }
            pp_seq(ts, printer, *len, 0x7b, 0x7d, out, pos, depth, format_float);
            assert(out@ =~= old(out)@ + erlang_term(term, depth, layout, float_text));
        },
        Tag::List(len) => {
            proof {
                lemma_terms_in_bounds(ts.tags@, ts.bytes@, index + 1, *len as nat);
            }
            pp_seq(ts, printer, *len, 0x5b, 0x5d, out, pos, depth, format_float);
            proof {
                if *len == 0 {
                    let none = Seq::<Term>::empty();
                    assert(terms_in(ts.tags@, ts.bytes@, index + 1, 0) == Some((none, index + 1)));
                    assert(is_small(none, layout));
                    assert(out@ =~= old(out)@ + seq![0x5bu8, 0x5du8]);
                }
            }
            assert(out@ =~= old(out)@ + erlang_term(term, depth, layout, float_text));
        },
        Tag::Proplist(len) => {
            proof {
                lemma_terms_in_bounds(ts.tags@, ts.bytes@, index + 1, *len as nat);
            }
            pp_seq(ts, printer, *len, 0x5b, 0x5d, out, pos, depth, format_float);
            assert(out@ =~= old(out)@ + erlang_term(term, depth, layout, float_text));
        },
        Tag::Mapping(len) => {
            proof {
                lemma_pairs_in_bounds(ts.tags@, ts.bytes@, index + 1, *len as nat);
            }
            pp_map(ts, printer, *len, out, pos, depth, format_float);
            assert(out@ =~= old(out)@ + erlang_term(term, depth, layout, float_text));
        },
    }
}

/// Appends to `out`, between the brackets `open` and `close`, the `len`
/// terms whose records stand from `pos` on, and moves `pos` behind them.
fn pp_seq<F: Fn(u64) -> Vec<u8>>(
    ts: &Terms,
    printer: &ErlangPrettyPrinter,
    len: u32,
    open: u8,
    close: u8,
    out: &mut Vec<u8>,
    pos: &mut usize,
    depth: usize,
    format_float: &F,
)
    requires
        is_float_printer(*format_float),
        *old(pos) <= ts.tags@.len(),
        terms_in(ts.tags@, ts.bytes@, *old(pos) as int, len as nat) is Some,
    ensures
        *final(pos) == end_of(terms_in(ts.tags@, ts.bytes@, *old(pos) as int, len as nat)),
        final(out)@ == old(out)@ + seq![open] + erlang_items(
            value_of(terms_in(ts.tags@, ts.bytes@, *old(pos) as int, len as nat)),
            len as nat,
            deeper(depth),
            !is_small(
                value_of(terms_in(ts.tags@, ts.bytes@, *old(pos) as int, len as nat)),
                printer.layout(),
            ),
            printer.layout(),
            formatted_float(*format_float),
        ) + line_start(
            !is_small(
                value_of(terms_in(ts.tags@, ts.bytes@, *old(pos) as int, len as nat)),
                printer.layout(),
            ),
            depth,
            printer.layout(),
        ) + seq![close],
    decreases ts.tags@.len() - *old(pos), 1int,
{
    let ghost float_text = formatted_float(*format_float);
    let ghost layout = printer.layout();
    let ghost start = *pos as int;
    let ghost elems = value_of(terms_in(ts.tags@, ts.bytes@, start, len as nat));
    proof {
        lemma_terms_in_bounds(ts.tags@, ts.bytes@, start, len as nat);
    }
    let multi_line = !small_collection(ts, *pos, len, printer.max_terms());
    let inner: usize = if depth < usize::MAX {
        depth + 1
    } else {
        depth
    };
    out.push(open);
    let ghost head = out@;
    let mut i: u32 = 0;
    while i < len
        invariant
            is_float_printer(*format_float),
            float_text == formatted_float(*format_float),
            layout == printer.layout(),
            i <= len,
            start == *old(pos),
            0 <= start <= *pos,
            start <= ts.tags@.len(),
            terms_in(ts.tags@, ts.bytes@, start, len as nat) is Some,
            elems == value_of(terms_in(ts.tags@, ts.bytes@, start, len as nat)),
            elems.len() == len,
            terms_in(ts.tags@, ts.bytes@, start, i as nat) == Some(
                (elems.subrange(0, i as int), *pos as int),
            ),
            out@ == head + erlang_items(elems, i as nat, inner, multi_line, layout, float_text),
        decreases len - i,
    {
        if i > 0 {
            out.push(0x2c);
            out.push(0x20);
        }
        proof {
            lemma_terms_in_prefix(ts.tags@, ts.bytes@, start, (i + 1) as nat, len as nat);
            assert(elems.subrange(0, i + 1)[i as int] == elems[i as int]);
        }
        printer.write_line_start(multi_line, inner, out);
        pp_(ts, printer, out, pos, inner, format_float);
        i = i + 1;
        assert(out@ =~= head + erlang_items(
            elems,
            i as nat,
            inner,
            multi_line,
            layout,
            float_text,
        ));
    }
    printer.write_line_start(multi_line, depth, out);
    out.push(close);
    proof {
        lemma_terms_in_prefix(ts.tags@, ts.bytes@, start, len as nat, len as nat);
        assert(out@ =~= old(out)@ + seq![open] + erlang_items(
            elems,
            len as nat,
            inner,
            multi_line,
            layout,
            float_text,
        ) + line_start(multi_line, depth, layout) + seq![close]);
    }
}

/// Appends to `out`, as a map, the `len` pairs of a key and a value whose
/// records stand from `pos` on, and moves `pos` behind them.
fn pp_map<F: Fn(u64) -> Vec<u8>>(
    ts: &Terms,
    printer: &ErlangPrettyPrinter,
    len: u32,
    out: &mut Vec<u8>,
    pos: &mut usize,
    depth: usize,
    format_float: &F,
)
    requires
        is_float_printer(*format_float),
        *old(pos) <= ts.tags@.len(),
        pairs_in(ts.tags@, ts.bytes@, *old(pos) as int, len as nat) is Some,
    ensures
        *final(pos) == end_of(pairs_in(ts.tags@, ts.bytes@, *old(pos) as int, len as nat)),
        final(out)@ == old(out)@ + erlang_term(
            Term::Mapping(
                value_of(pairs_in(ts.tags@, ts.bytes@, *old(pos) as int, len as nat)).0,
                value_of(pairs_in(ts.tags@, ts.bytes@, *old(pos) as int, len as nat)).1,
            ),
            depth,
            printer.layout(),
            formatted_float(*format_float),
        ),
    decreases ts.tags@.len() - *old(pos), 1int,
{
    let ghost float_text = formatted_float(*format_float);
    let ghost layout = printer.layout();
    let ghost start = *pos as int;
    let ghost pairs = value_of(pairs_in(ts.tags@, ts.bytes@, start, len as nat));
    let ghost term = Term::Mapping(pairs.0, pairs.1);
    proof {
        lemma_pairs_in_bounds(ts.tags@, ts.bytes@, start, len as nat);
    }
    let multi_line = !small_pairs(ts, *pos, len, printer.max_terms());
    let inner: usize = if depth < usize::MAX {
        depth + 1
    } else {
        depth
    };
    out.push(0x23);
    out.push(0x7b);
    let ghost head = out@;
    let mut i: u32 = 0;
    while i < len
        invariant
            is_float_printer(*format_float),
            float_text == formatted_float(*format_float),
            layout == printer.layout(),
            i <= len,
            start == *old(pos),
            0 <= start <= *pos,
            start <= ts.tags@.len(),
            pairs_in(ts.tags@, ts.bytes@, start, len as nat) is Some,
            pairs == value_of(pairs_in(ts.tags@, ts.bytes@, start, len as nat)),
            pairs.0.len() == len,
            pairs.1.len() == len,
            term == Term::Mapping(pairs.0, pairs.1),
            pairs_in(ts.tags@, ts.bytes@, start, i as nat) == Some(
                ((pairs.0.subrange(0, i as int), pairs.1.subrange(0, i as int)), *pos as int),
            ),
            out@ == head + erlang_pairs(term, i as nat, inner, multi_line, layout, float_text),
        decreases len - i,
    {
        if i > 0 {
            out.push(0x2c);
            out.push(0x20);
        }
        proof {
            lemma_pairs_in_prefix(ts.tags@, ts.bytes@, start, (i + 1) as nat, len as nat);
            assert(pairs.0.subrange(0, i + 1)[i as int] == pairs.0[i as int]);
            assert(pairs.1.subrange(0, i + 1)[i as int] == pairs.1[i as int]);
            lemma_term_in_bounds(ts.tags@, ts.bytes@, *pos as int);
        }
        printer.write_line_start(multi_line, inner, out);
        pp_(ts, printer, out, pos, inner, format_float);
        out.push(0x20);
        out.push(0x3d);
        out.push(0x3e);
        out.push(0x20);
        pp_(ts, printer, out, pos, inner, format_float);
        i = i + 1;
        assert(out@ =~= head + erlang_pairs(term, i as nat, inner, multi_line, layout, float_text));
    }
    printer.write_line_start(multi_line, depth, out);
    out.push(0x7d);
    proof {
        lemma_pairs_in_prefix(ts.tags@, ts.bytes@, start, len as nat, len as nat);
        assert(out@ =~= old(out)@ + erlang_term(term, depth, layout, float_text));
    }
}

} // verus!
