//! Writing a term as Erlang source text.

use vstd::prelude::*;
use vstd::pervasive::unreached;
use vstd::utf8::encode_utf8;
use crate::bertterm::BertTerm;
use crate::bertterm::Term;
use crate::bertterm::lemma_terms_view;
use crate::bertterm::terms_view;
use crate::float::FloatText;
use crate::float::formatted_float;
use crate::float::is_float_printer;
use crate::pp::PrettyPrinter;
use crate::pp::utils::is_printable;
use crate::pp::utils::must_be_escaped;
use crate::text::decimal;
use crate::text::format_i32;
use crate::text::hex2;
use crate::text::push_hex2;
use crate::wire::push_all;

verus! {

/// How one byte of a string or a binary stands between double quotes: a
/// double quote and a backslash behind a backslash, any other printable
/// ASCII character as it is, every other byte as `\x` and its two
/// hexadecimal digits.
pub open spec fn erlang_byte(b: u8) -> Seq<u8> {
    if b == 0x22 || b == 0x5c {
        seq![0x5cu8, b]
    } else if 0x20 <= b <= 0x7e {
        seq![b]
    } else {
        seq![0x5cu8, 0x78u8] + hex2(b)
    }
}

/// The bytes of a string or a binary as they stand between double quotes.
pub open spec fn erlang_escaped(bytes: Seq<u8>) -> Seq<u8>
    decreases bytes.len(),
{
    if bytes.len() == 0 {
        Seq::empty()
    } else {
        erlang_escaped(bytes.drop_last()) + erlang_byte(bytes.last())
    }
}

/// `len` spaces.
pub open spec fn blanks(len: nat) -> Seq<u8> {
    Seq::new(len, |i: int| 0x20u8)
}

/// How many spaces indent a line at nesting depth `depth`: `width` for each
/// level. The number stops at the largest `usize`.
pub open spec fn indent_len(depth: nat, width: nat) -> nat {
    if depth * width <= usize::MAX {
        depth * width
    } else {
        usize::MAX as nat
    }
}

/// One nesting level below `depth`. The count stops at the largest `usize`.
pub open spec fn deeper(depth: usize) -> usize {
    if depth < usize::MAX {
        (depth + 1) as usize
    } else {
        depth
    }
}

/// The layout that a printer was made with.
pub struct Layout {
    /// Spaces per nesting level.
    pub indent_width: usize,
    /// The most elements that a collection on one line may have.
    pub max_terms_per_line: usize,
}

/// Whether a collection goes on one line: it has no more than
/// `max_terms_per_line` elements, and all of them are basic terms.
pub open spec fn is_small(terms: Seq<Term>, layout: Layout) -> bool {
    terms.len() <= layout.max_terms_per_line && forall|i: int|
        0 <= i < terms.len() ==> (#[trigger] terms[i]).is_basic()
}

/// What stands in front of an element or of a closing bracket at nesting
/// depth `depth`: nothing in a collection on one line, else a line feed and
/// the indentation.
pub open spec fn line_start(multi_line: bool, depth: usize, layout: Layout) -> Seq<u8> {
    if multi_line {
        seq![0x0au8] + blanks(indent_len(depth as nat, layout.indent_width as nat))
    } else {
        Seq::empty()
    }
}

/// A comma and a space, but in front of the first element.
pub open spec fn erlang_comma(index: int) -> Seq<u8> {
    if index == 0 {
        Seq::empty()
    } else {
        seq![0x2cu8, 0x20u8]
    }
}

/// A term as Erlang source text, at nesting depth `depth`.
pub open spec fn erlang_term(term: Term, depth: usize, layout: Layout, float_text: FloatText)
    -> Seq<u8>
    decreases term, 1nat, 0nat,
{
    match term {
        Term::Nil => seq![0x5bu8, 0x5du8],
        Term::Int(n) => decimal(n as int),
        Term::BigInt(n) => decimal(n),
        Term::Float(bits) => float_text(bits),
        Term::Atom(name) => encode_utf8(name),
        Term::String(bytes) => seq![0x22u8] + erlang_escaped(bytes) + seq![0x22u8],
        Term::Binary(bytes) => seq![0x3cu8, 0x3cu8, 0x22u8] + erlang_escaped(bytes) + seq![
            0x22u8,
            0x3eu8,
            0x3eu8,
        ],
        Term::List(terms) => seq![0x5bu8] + erlang_items(
            terms,
            terms.len(),
            deeper(depth),
            !is_small(terms, layout),
            layout,
            float_text,
        ) + line_start(!is_small(terms, layout), depth, layout) + seq![0x5du8],
        Term::Tuple(terms) => seq![0x7bu8] + erlang_items(
            terms,
            terms.len(),
            deeper(depth),
            !is_small(terms, layout),
            layout,
            float_text,
        ) + line_start(!is_small(terms, layout), depth, layout) + seq![0x7du8],
        Term::Mapping(keys, vals) => seq![0x23u8, 0x7bu8] + erlang_pairs(
            term,
            if keys.len() <= vals.len() {
                keys.len()
            } else {
                vals.len()
            },
            deeper(depth),
            !is_small(keys, layout) || !is_small(vals, layout),
            layout,
            float_text,
        ) + line_start(!is_small(keys, layout) || !is_small(vals, layout), depth, layout) + seq![
            0x7du8,
        ],
    }
}

/// The first `count` elements of a collection, with a comma and a space
/// between them. In a collection on several lines each stands on a line of
/// its own.
pub open spec fn erlang_items(
    terms: Seq<Term>,
    count: nat,
    depth: usize,
    multi_line: bool,
    layout: Layout,
    float_text: FloatText,
) -> Seq<u8>
    decreases terms, 0nat, count,
{
    if count == 0 || count > terms.len() {
        Seq::empty()
    } else {
        erlang_items(terms, (count - 1) as nat, depth, multi_line, layout, float_text)
            + erlang_comma(count - 1) + line_start(multi_line, depth, layout) + erlang_term(
            terms[count - 1],
            depth,
            layout,
            float_text,
        )
    }
}

/// The first `count` keys of a map, each with an arrow and its value.
pub open spec fn erlang_pairs(
    map: Term,
    count: nat,
    depth: usize,
    multi_line: bool,
    layout: Layout,
    float_text: FloatText,
) -> Seq<u8>
    decreases map, 0nat, count,
{
    match map {
        Term::Mapping(keys, vals) => if count == 0 || count > keys.len() || count > vals.len() {
            Seq::empty()
        } else {
            erlang_pairs(map, (count - 1) as nat, depth, multi_line, layout, float_text)
                + erlang_comma(count - 1) + line_start(multi_line, depth, layout) + erlang_term(
                keys[count - 1],
                depth,
                layout,
                float_text,
            ) + seq![0x20u8, 0x3du8, 0x3eu8, 0x20u8] + erlang_term(
                vals[count - 1],
                depth,
                layout,
                float_text,
            )
        },
        _ => Seq::empty(),
    }
}

/// The printer of Erlang source text.
pub struct ErlangPrettyPrinter {
    indent_width: usize,
    max_terms_per_line: usize,
    terminator: &'static str,
}

impl ErlangPrettyPrinter {
    /// The layout that the printer was made with.
    pub closed spec fn layout(&self) -> Layout {
        Layout { indent_width: self.indent_width, max_terms_per_line: self.max_terms_per_line }
    }

    /// The bytes that the printer puts behind a term.
    pub closed spec fn terminator_bytes(&self) -> Seq<u8> {
        encode_utf8(self.terminator@)
    }

    /// A printer that indents sub-terms by `indent_width` spaces for each
    /// nesting level, puts at most `max_terms_per_line` basic terms on one
    /// line, and ends every term with `terminator`.
    pub fn new(
        indent_width: usize,
        max_terms_per_line: usize,
        terminator: &'static str,
    ) -> (printer: Self)
        ensures
            printer.layout() == (Layout { indent_width, max_terms_per_line }),
            printer.terminator_bytes() == encode_utf8(terminator@),
    {
        ErlangPrettyPrinter { indent_width, max_terms_per_line, terminator }
    }

    /// The most elements that a collection on one line may have.
    pub fn max_terms(&self) -> (max: usize)
        ensures
            max == self.layout().max_terms_per_line,
    {
        self.max_terms_per_line
    }

    /// Appends to `out` the bytes `open`, the bytes of a string or a binary
    /// as they stand between double quotes, and the bytes `close`.
    pub fn write_string(&self, bytes: &[u8], out: &mut Vec<u8>, open: &[u8], close: &[u8])
        ensures
            final(out)@ == old(out)@ + open@ + erlang_escaped(bytes@) + close@,
    {
        push_all(out, open);
        let ghost head = out@;
        let mut i: usize = 0;
        assert(bytes@.subrange(0, 0) =~= Seq::<u8>::empty());
        while i < bytes.len()
            invariant
                i <= bytes.len(),
                out@ == head + erlang_escaped(bytes@.subrange(0, i as int)),
            decreases bytes.len() - i,
        {
            let b: u8 = bytes[i];
            let ghost before = out@;
            if must_be_escaped(b) {
                out.push(0x5c);
                out.push(b);
            } else if !is_printable(b) {
                out.push(0x5c);
                out.push(0x78);
                push_hex2(out, b);
            } else {
                out.push(b);
            }
            assert(out@ =~= before + erlang_byte(b));
            i = i + 1;
            assert(bytes@.subrange(0, i as int).drop_last() =~= bytes@.subrange(0, i - 1));
        }
        assert(bytes@.subrange(0, bytes.len() as int) =~= bytes@);
        push_all(out, close);
    }

    /// Whether a collection goes on one line.
    pub fn is_small_collection(&self, terms: &Vec<BertTerm>) -> (small: bool)
        ensures
            small == is_small(terms_view(terms@), self.layout()),
    {
        proof {
            lemma_terms_view(terms@);
        }
        if terms.len() > self.max_terms_per_line {
            return false;
        }
        let mut i: usize = 0;
        while i < terms.len()
            invariant
                i <= terms.len(),
                terms_view(terms@).len() == terms.len(),
                forall|j: int|
                    0 <= j < terms.len() ==> (#[trigger] terms_view(terms@)[j]) == terms[j]@,
                forall|j: int| 0 <= j < i ==> (#[trigger] terms_view(terms@)[j]).is_basic(),
            decreases terms.len() - i,
        {
            if !terms[i].is_basic() {
                assert(!terms_view(terms@)[i as int].is_basic());
                return false;
            }
            i = i + 1;
        }
        true
    }

    /// The spaces that indent a line at nesting depth `depth`.
    pub fn indentation(&self, depth: usize) -> (spaces: Vec<u8>)
        ensures
            spaces@ == blanks(indent_len(depth as nat, self.layout().indent_width as nat)),
    {
        let width = self.indent_width;
        let limit = usize::MAX;
        let n: usize = if width == 0 || depth == 0 {
            assert(depth * width == 0) by (nonlinear_arith)
                requires
                    width == 0 || depth == 0,
            ;
            0
        } else if depth > limit / width {
            assert(depth * width > limit) by (nonlinear_arith)
                requires
                    width > 0,
                    depth > limit / width,
            ;
            limit
        } else {
            assert(depth * width <= limit) by (nonlinear_arith)
                requires
                    width > 0,
                    depth <= limit / width,
            ;
            depth * width
        };
        let mut spaces: Vec<u8> = Vec::new();
        let mut i: usize = 0;
        while i < n
            invariant
                i <= n,
                spaces@ == blanks(i as nat),
            decreases n - i,
        {
            spaces.push(0x20);
            i = i + 1;
            assert(spaces@ =~= blanks(i as nat));
        }
        spaces
    }

    /// Appends to `out` what stands in front of an element or of a closing
    /// bracket.
    pub fn write_line_start(&self, multi_line: bool, depth: usize, out: &mut Vec<u8>)
        ensures
            final(out)@ == old(out)@ + line_start(multi_line, depth, self.layout()),
    {
        if multi_line {
            out.push(0x0a);
            let spaces = self.indentation(depth);
            push_all(out, spaces.as_slice());
            assert(out@ =~= old(out)@ + line_start(multi_line, depth, self.layout()));
        } else {
            assert(out@ =~= old(out)@ + line_start(multi_line, depth, self.layout()));
        }
    }

    /// Appends to `out` the text of `term`, which stands at nesting depth
    /// `depth`.
    pub fn write_term<F: Fn(u64) -> Vec<u8>>(
        &self,
        term: &BertTerm,
        out: &mut Vec<u8>,
        depth: usize,
        format_float: &F,
    )
        requires
            is_float_printer(*format_float),
        ensures
            final(out)@ == old(out)@ + erlang_term(
                term@,
                depth,
                self.layout(),
                formatted_float(*format_float),
            ),
        decreases term, 1nat,
    {
        let ghost float_text = formatted_float(*format_float);
        let ghost layout = self.layout();
        match term {
            BertTerm::Nil => {
                out.push(0x5b);
                out.push(0x5d);
                assert(out@ =~= old(out)@ + erlang_term(term@, depth, layout, float_text));
            },
            BertTerm::Int(n) => {
                let text = format_i32(*n);
                push_all(out, text.as_slice());
            },
            BertTerm::BigInt(n) => {
                let text = n.to_decimal();
                push_all(out, text.as_slice());
            },
            BertTerm::Float(bits) => {
                let text = format_float(*bits);
                push_all(out, text.as_slice());
            },
            BertTerm::Atom(name) => {
                push_all(out, name.as_str().as_bytes());
            },
            BertTerm::String(bytes) => {
                let quote: Vec<u8> = vec![0x22u8];
                self.write_string(bytes.as_slice(), out, quote.as_slice(), quote.as_slice());
                assert(out@ =~= old(out)@ + erlang_term(term@, depth, layout, float_text));
            },
            BertTerm::Binary(bytes) => {
                let open: Vec<u8> = vec![0x3cu8, 0x3cu8, 0x22u8];
                let close: Vec<u8> = vec![0x22u8, 0x3eu8, 0x3eu8];
                self.write_string(bytes.as_slice(), out, open.as_slice(), close.as_slice());
                assert(out@ =~= old(out)@ + erlang_term(term@, depth, layout, float_text));
            },
            BertTerm::List(terms) => {
                self.write_collection(terms, out, depth, 0x5b, 0x5d, format_float);
                assert(out@ =~= old(out)@ + erlang_term(term@, depth, layout, float_text));
            },
            BertTerm::Tuple(terms) => {
                self.write_collection(terms, out, depth, 0x7b, 0x7d, format_float);
                assert(out@ =~= old(out)@ + erlang_term(term@, depth, layout, float_text));
            },
            BertTerm::Mapping(_, _) => {
                self.write_map(term, out, depth, format_float);
            },
        }
    }

    /// Appends to `out` a map: each key with an arrow and its value. A key
    /// without a value, or a value without a key, is left out.
    fn write_map<F: Fn(u64) -> Vec<u8>>(
        &self,
        map: &BertTerm,
        out: &mut Vec<u8>,
        depth: usize,
        format_float: &F,
    )
        requires
            is_float_printer(*format_float),
            map is Mapping,
        ensures
            final(out)@ == old(out)@ + erlang_term(
                map@,
                depth,
                self.layout(),
                formatted_float(*format_float),
            ),
        decreases map, 0nat,
    {
        let (keys, vals) = match map {
            BertTerm::Mapping(keys, vals) => (keys, vals),
            _ => unreached(),
        };
        let ghost float_text = formatted_float(*format_float);
        let ghost layout = self.layout();
        let ghost term = map@;
        proof {
            lemma_terms_view(keys@);
            lemma_terms_view(vals@);
        }
        let multi_line = !self.is_small_collection(keys) || !self.is_small_collection(vals);
        let inner: usize = if depth < usize::MAX {
            depth + 1
        } else {
            depth
        };
        out.push(0x23);
        out.push(0x7b);
        let ghost head = out@;
        let count: usize = if keys.len() <= vals.len() {
            keys.len()
        } else {
            vals.len()
        };
        let mut i: usize = 0;
        while i < count
            invariant
                is_float_printer(*format_float),
                float_text == formatted_float(*format_float),
                layout == self.layout(),
                i <= count,
                count <= keys.len(),
                count <= vals.len(),
                map == BertTerm::Mapping(*keys, *vals),
                term == map@,
                term == Term::Mapping(terms_view(keys@), terms_view(vals@)),
                terms_view(keys@).len() == keys.len(),
                terms_view(vals@).len() == vals.len(),
                forall|j: int|
                    0 <= j < keys.len() ==> (#[trigger] terms_view(keys@)[j]) == keys[j]@,
                forall|j: int|
                    0 <= j < vals.len() ==> (#[trigger] terms_view(vals@)[j]) == vals[j]@,
                out@ == head + erlang_pairs(term, i as nat, inner, multi_line, layout, float_text),
            decreases count - i,
        {
            if i > 0 {
                out.push(0x2c);
                out.push(0x20);
            }
            self.write_line_start(multi_line, inner, out);
            self.write_term(&keys[i], out, inner, format_float);
            out.push(0x20);
            out.push(0x3d);
            out.push(0x3e);
            out.push(0x20);
            self.write_term(&vals[i], out, inner, format_float);
            i = i + 1;
            assert(out@ =~= head + erlang_pairs(
                term,
                i as nat,
                inner,
                multi_line,
                layout,
                float_text,
            ));
        }
        self.write_line_start(multi_line, depth, out);
        out.push(0x7d);
        assert(out@ =~= old(out)@ + erlang_term(term, depth, layout, float_text));
    }

    /// Appends to `out` a collection between the brackets `open` and `close`.
    fn write_collection<F: Fn(u64) -> Vec<u8>>(
        &self,
        terms: &Vec<BertTerm>,
        out: &mut Vec<u8>,
        depth: usize,
        open: u8,
        close: u8,
        format_float: &F,
    )
        requires
            is_float_printer(*format_float),
        ensures
            final(out)@ == old(out)@ + seq![open] + erlang_items(
                terms_view(terms@),
                terms.len() as nat,
                deeper(depth),
                !is_small(terms_view(terms@), self.layout()),
                self.layout(),
                formatted_float(*format_float),
            ) + line_start(!is_small(terms_view(terms@), self.layout()), depth, self.layout())
                + seq![close],
        decreases terms, 0nat,
    {
        proof {
            lemma_terms_view(terms@);
        }
        let ghost float_text = formatted_float(*format_float);
        let ghost layout = self.layout();
        let ghost items = terms_view(terms@);
        let multi_line = !self.is_small_collection(terms);
        let inner: usize = if depth < usize::MAX {
            depth + 1
        } else {
            depth
        };
        out.push(open);
        let ghost head = out@;
        let mut i: usize = 0;
        while i < terms.len()
            invariant
                is_float_printer(*format_float),
                float_text == formatted_float(*format_float),
                layout == self.layout(),
                i <= terms.len(),
                items == terms_view(terms@),
                items.len() == terms.len(),
                forall|j: int| 0 <= j < terms.len() ==> (#[trigger] items[j]) == terms[j]@,
                out@ == head + erlang_items(items, i as nat, inner, multi_line, layout, float_text),
            decreases terms.len() - i,
        {
            if i > 0 {
                out.push(0x2c);
                out.push(0x20);
            }
            self.write_line_start(multi_line, inner, out);
            self.write_term(&terms[i], out, inner, format_float);
            i = i + 1;
            assert(out@ =~= head + erlang_items(
                items,
                i as nat,
                inner,
                multi_line,
                layout,
                float_text,
            ));
        }
        self.write_line_start(multi_line, depth, out);
        out.push(close);
        assert(out@ =~= old(out)@ + seq![open] + erlang_items(
            items,
            terms.len() as nat,
            inner,
            multi_line,
            layout,
            float_text,
        ) + line_start(multi_line, depth, layout) + seq![close]);
    }
}

impl PrettyPrinter for ErlangPrettyPrinter {
    /// The text of the term, the terminator and a line feed.
    open spec fn rendering(&self, term: Term, float_text: FloatText) -> Seq<u8> {
        erlang_term(term, 0, self.layout(), float_text) + self.terminator_bytes() + seq![0x0au8]
    }

    fn write<F: Fn(u64) -> Vec<u8>>(&self, term: &BertTerm, out: &mut Vec<u8>, format_float: &F) {
        self.write_term(term, out, 0, format_float);
        push_all(out, self.terminator.as_bytes());
        out.push(0x0a);
        assert(out@ =~= old(out)@ + self.rendering(term@, formatted_float(*format_float)));
    }
}

} // verus!
