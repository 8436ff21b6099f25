//! Writing a term as JSON, on one line.

use vstd::prelude::*;
use vstd::pervasive::unreached;
use vstd::utf8::encode_utf8;
use crate::bertterm::BertTerm;
use crate::bertterm::Term;
use crate::bertterm::lemma_terms_view;
use crate::bertterm::terms_view;
use crate::float::FloatText;
use crate::float::formatted_float;
use crate::float::is_float_printer;
use crate::pp::PrettyPrinter;
use crate::pp::utils::is_printable;
use crate::pp::utils::must_be_escaped;
use crate::text::decimal;
use crate::text::format_i32;
use crate::text::hex2;
use crate::text::push_hex2;
use crate::wire::push_all;

verus! {

/// How one byte of a string or a binary stands inside a JSON string: a
/// double quote and a backslash behind a backslash, any other printable
/// ASCII character as it is, every other byte as `\u00` and its two
/// hexadecimal digits.
pub open spec fn json_byte(b: u8) -> Seq<u8> {
    if b == 0x22 || b == 0x5c {
        seq![0x5cu8, b]
    } else if 0x20 <= b <= 0x7e {
        seq![b]
    } else {
        seq![0x5cu8, 0x75u8, 0x30u8, 0x30u8] + hex2(b)
    }
}

/// The bytes of a string or a binary as they stand inside a JSON string.
pub open spec fn json_escaped(bytes: Seq<u8>) -> Seq<u8>
    decreases bytes.len(),
{
    if bytes.len() == 0 {
        Seq::empty()
    } else {
        json_escaped(bytes.drop_last()) + json_byte(bytes.last())
    }
}

/// `text` between double quotes.
pub open spec fn quoted(text: Seq<u8>) -> Seq<u8> {
    seq![0x22u8] + text + seq![0x22u8]
}

/// The UTF-8 bytes of the atom `true`.
pub open spec fn true_name() -> Seq<u8> {
    seq![0x74u8, 0x72u8, 0x75u8, 0x65u8]
}

/// The UTF-8 bytes of the atom `false`.
pub open spec fn false_name() -> Seq<u8> {
    seq![0x66u8, 0x61u8, 0x6cu8, 0x73u8, 0x65u8]
}

/// An atom as JSON, given the UTF-8 bytes of its name: `true` and `false`
/// are the JSON booleans, every other atom is its name between double
/// quotes, as it stands.
pub open spec fn json_atom(name: Seq<u8>) -> Seq<u8> {
    if name == true_name() || name == false_name() {
        name
    } else {
        quoted(name)
    }
}

/// A term as JSON. Where `transform` is set, a list of properties is an
/// object; else a list is an array, as a tuple is. The keys of a map are
/// written as the JSON of the key terms, whatever they are.
pub open spec fn json_term(term: Term, transform: bool, float_text: FloatText) -> Seq<u8>
    decreases term, 1nat, 0nat,
{
    match term {
        Term::Nil => seq![0x5bu8, 0x5du8],
        Term::Int(n) => decimal(n as int),
        Term::BigInt(n) => quoted(decimal(n)),
        Term::Float(bits) => float_text(bits),
        Term::Atom(name) => json_atom(encode_utf8(name)),
        Term::List(terms) => if transform && term.is_proplist() {
            seq![0x7bu8] + json_properties(terms, terms.len(), transform, float_text) + seq![
                0x7du8,
            ]
        } else {
            seq![0x5bu8] + json_items(terms, terms.len(), transform, float_text) + seq![0x5du8]
        },
        Term::Tuple(terms) => seq![0x5bu8] + json_items(terms, terms.len(), transform, float_text)
            + seq![0x5du8],
        Term::String(bytes) => quoted(json_escaped(bytes)),
        Term::Binary(bytes) => quoted(json_escaped(bytes)),
        Term::Mapping(keys, vals) => seq![0x7bu8] + json_pairs(
            term,
            if keys.len() <= vals.len() {
                keys.len()
            } else {
                vals.len()
            },
            transform,
            float_text,
        ) + seq![0x7du8],
    }
}

/// A comma, but in front of the first item.
pub open spec fn json_comma(index: int) -> Seq<u8> {
    if index == 0 {
        Seq::empty()
    } else {
        seq![0x2cu8]
    }
}

/// The first `count` terms of `terms` as JSON, with commas between them.
pub open spec fn json_items(terms: Seq<Term>, count: nat, transform: bool, float_text: FloatText)
    -> Seq<u8>
    decreases terms, 0nat, count,
{
    if count == 0 || count > terms.len() {
        Seq::empty()
    } else {
        json_items(terms, (count - 1) as nat, transform, float_text) + json_comma(count - 1)
            + json_term(terms[count - 1], transform, float_text)
    }
}

/// A property as the member of a JSON object: the key, a colon, the value.
pub open spec fn json_property(entry: Term, transform: bool, float_text: FloatText) -> Seq<u8>
    decreases entry, 0nat, 0nat,
{
    match entry {
        Term::Tuple(kv) => if kv.len() == 2 {
            json_term(kv[0], transform, float_text) + seq![0x3au8] + json_term(
                kv[1],
                transform,
                float_text,
            )
        } else {
            Seq::empty()
        },
        _ => Seq::empty(),
    }
}

/// The first `count` properties of `terms` as the members of a JSON object.
pub open spec fn json_properties(
    terms: Seq<Term>,
    count: nat,
    transform: bool,
    float_text: FloatText,
) -> Seq<u8>
    decreases terms, 1nat, count,
{
    if count == 0 || count > terms.len() {
        Seq::empty()
    } else {
        json_properties(terms, (count - 1) as nat, transform, float_text) + json_comma(count - 1)
            + json_property(terms[count - 1], transform, float_text)
    }
}

/// The first `count` keys of a map, each with its value, as the members of a
/// JSON object.
pub open spec fn json_pairs(map: Term, count: nat, transform: bool, float_text: FloatText) -> Seq<
    u8,
>
    decreases map, 0nat, count,
{
    match map {
        Term::Mapping(keys, vals) => if count == 0 || count > keys.len() || count > vals.len() {
            Seq::empty()
        } else {
            json_pairs(map, (count - 1) as nat, transform, float_text) + json_comma(count - 1)
                + json_term(keys[count - 1], transform, float_text) + seq![0x3au8] + json_term(
                vals[count - 1],
                transform,
                float_text,
            )
        },
        _ => Seq::empty(),
    }
}

    /// Appends to `out` the bytes of a string or a binary as they stand
    /// inside a JSON string.
pub fn push_json_escaped(bytes: &[u8], out: &mut Vec<u8>)
        ensures
            final(out)@ == old(out)@ + json_escaped(bytes@),
    {
        let mut i: usize = 0;
        assert(bytes@.subrange(0, 0) =~= Seq::<u8>::empty());
        while i < bytes.len()
            invariant
                i <= bytes.len(),
                out@ == old(out)@ + json_escaped(bytes@.subrange(0, i as int)),
            decreases bytes.len() - i,
        {
            let b: u8 = bytes[i];
            let ghost before = out@;
            if must_be_escaped(b) {
                out.push(0x5c);
                out.push(b);
            } else if !is_printable(b) {
                out.push(0x5c);
                out.push(0x75);
                out.push(0x30);
                out.push(0x30);
                push_hex2(out, b);
            } else {
                out.push(b);
            }
            assert(out@ =~= before + json_byte(b));
            i = i + 1;
            assert(bytes@.subrange(0, i as int).drop_last() =~= bytes@.subrange(0, i - 1));
        }
        assert(bytes@.subrange(0, bytes.len() as int) =~= bytes@);
    }

/// Appends to `out` an atom as JSON, given the UTF-8 bytes of its name.
pub fn push_json_atom(name: &[u8], out: &mut Vec<u8>)
    ensures
        final(out)@ == old(out)@ + json_atom(name@),
{
    if is_true(name) || is_false(name) {
        push_all(out, name);
    } else {
        out.push(0x22);
        push_all(out, name);
        out.push(0x22);
    }
    assert(out@ =~= old(out)@ + json_atom(name@));
}

/// The printer of JSON.
pub struct JsonPrettyPrinter {
    transform_proplists: bool,
}

impl JsonPrettyPrinter {
    /// Whether lists of properties are written as objects.
    pub closed spec fn transforms(&self) -> bool {
        self.transform_proplists
    }

    /// A printer that writes lists of properties as objects where
    /// `transform_proplists` is set.
    pub fn new(transform_proplists: bool) -> (printer: Self)
        ensures
            printer.transforms() == transform_proplists,
    {
        JsonPrettyPrinter { transform_proplists }
    }

    /// Appends to `out` the JSON of `term`.
    fn write_term<F: Fn(u64) -> Vec<u8>>(
        &self,
        term: &BertTerm,
        out: &mut Vec<u8>,
        format_float: &F,
    )
        requires
            is_float_printer(*format_float),
        ensures
            final(out)@ == old(out)@ + json_term(
                term@,
                self.transforms(),
                formatted_float(*format_float),
            ),
        decreases term, 1nat,
    {
        let ghost float_text = formatted_float(*format_float);
        let ghost transform = self.transforms();
        match term {
            BertTerm::Nil => {
                out.push(0x5b);
                out.push(0x5d);
                assert(out@ =~= old(out)@ + json_term(term@, transform, float_text));
            },
            BertTerm::Int(n) => {
                let text = format_i32(*n);
                push_all(out, text.as_slice());
            },
            BertTerm::BigInt(n) => {
                let text = n.to_decimal();
                out.push(0x22);
                push_all(out, text.as_slice());
                out.push(0x22);
                assert(out@ =~= old(out)@ + json_term(term@, transform, float_text));
            },
            BertTerm::Float(bits) => {
                let text = format_float(*bits);
                push_all(out, text.as_slice());
            },
            BertTerm::Atom(name) => {
                push_json_atom(name.as_str().as_bytes(), out);
            },
            BertTerm::List(terms) => {
                if self.transform_proplists && term.is_proplist() {
                    proof {
                        lemma_terms_view(terms@);
                    }
                    let ghost items = terms_view(terms@);
                    out.push(0x7b);
                    let ghost head = out@;
                    let mut i: usize = 0;
                    while i < terms.len()
                        invariant
                            is_float_printer(*format_float),
                            float_text == formatted_float(*format_float),
                            transform == self.transforms(),
                            i <= terms.len(),
                            term == BertTerm::List(*terms),
                            term@ == Term::List(items),
                            items == terms_view(terms@),
                            items.len() == terms.len(),
                            forall|j: int|
                                0 <= j < terms.len() ==> (#[trigger] items[j]) == terms[j]@,
                            forall|j: int|
                                0 <= j < items.len() ==> (#[trigger] items[j]).is_proplist_entry(),
                            out@ == head + json_properties(items, i as nat, transform, float_text),
                        decreases terms.len() - i,
                    {
                        if i > 0 {
                            out.push(0x2c);
                        }
                        assert(items[i as int].is_proplist_entry());
                        self.write_as_kv_pair(&terms[i], out, format_float);
                        i = i + 1;
                        assert(out@ =~= head + json_properties(
                            items,
                            i as nat,
                            transform,
                            float_text,
                        ));
                    }
                    out.push(0x7d);
                    assert(out@ =~= old(out)@ + json_term(term@, transform, float_text));
                } else {
                    self.write_list(terms, out, format_float);
                }
            },
            BertTerm::Tuple(terms) => {
                self.write_list(terms, out, format_float);
            },
            BertTerm::Binary(bytes) => {
                out.push(0x22);
                push_json_escaped(bytes.as_slice(), out);
                out.push(0x22);
                assert(out@ =~= old(out)@ + json_term(term@, transform, float_text));
            },
            BertTerm::String(bytes) => {
                out.push(0x22);
                push_json_escaped(bytes.as_slice(), out);
                out.push(0x22);
                assert(out@ =~= old(out)@ + json_term(term@, transform, float_text));
            },
            BertTerm::Mapping(keys, vals) => {
                proof {
                    lemma_terms_view(keys@);
                    lemma_terms_view(vals@);
                }
                out.push(0x7b);
                let ghost head = out@;
                let count: usize = if keys.len() <= vals.len() {
                    keys.len()
                } else {
                    vals.len()
                };
                let mut i: usize = 0;
                while i < count
                    invariant
                        is_float_printer(*format_float),
                        float_text == formatted_float(*format_float),
                        transform == self.transforms(),
                        i <= count,
                        count <= keys.len(),
                        count <= vals.len(),
                        term == BertTerm::Mapping(*keys, *vals),
                        term@ == Term::Mapping(terms_view(keys@), terms_view(vals@)),
                        terms_view(keys@).len() == keys.len(),
                        terms_view(vals@).len() == vals.len(),
                        forall|j: int|
                            0 <= j < keys.len() ==> (#[trigger] terms_view(keys@)[j]) == keys[j]@,
                        forall|j: int|
                            0 <= j < vals.len() ==> (#[trigger] terms_view(vals@)[j]) == vals[j]@,
                        out@ == head + json_pairs(term@, i as nat, transform, float_text),
                    decreases count - i,
                {
                    if i > 0 {
                        out.push(0x2c);
                    }
                    self.write_term(&keys[i], out, format_float);
                    out.push(0x3a);
                    self.write_term(&vals[i], out, format_float);
                    i = i + 1;
                    assert(out@ =~= head + json_pairs(term@, i as nat, transform, float_text));
                }
                out.push(0x7d);
                assert(out@ =~= old(out)@ + json_term(term@, transform, float_text));
            },
        }
    }

    /// Appends to `out` a property as the member of an object. Only called
    /// on what `is_proplist_entry` holds of.
    fn write_as_kv_pair<F: Fn(u64) -> Vec<u8>>(
        &self,
        term: &BertTerm,
        out: &mut Vec<u8>,
        format_float: &F,
    )
        requires
            is_float_printer(*format_float),
            term@.is_proplist_entry(),
        ensures
            final(out)@ == old(out)@ + json_property(
                term@,
                self.transforms(),
                formatted_float(*format_float),
            ),
        decreases term, 0nat,
    {
        match term {
            BertTerm::Tuple(kv) => {
                proof {
                    lemma_terms_view(kv@);
                }
                self.write_term(&kv[0], out, format_float);
                out.push(0x3a);
                self.write_term(&kv[1], out, format_float);
                assert(out@ =~= old(out)@ + json_property(
                    term@,
                    self.transforms(),
                    formatted_float(*format_float),
                ));
            },
            _ => unreached(),
        }
    }

    /// Appends to `out` the terms of `terms` as a JSON array.
    fn write_list<F: Fn(u64) -> Vec<u8>>(
        &self,
        terms: &Vec<BertTerm>,
        out: &mut Vec<u8>,
        format_float: &F,
    )
        requires
            is_float_printer(*format_float),
        ensures
            final(out)@ == old(out)@ + seq![0x5bu8] + json_items(
                terms_view(terms@),
                terms.len() as nat,
                self.transforms(),
                formatted_float(*format_float),
            ) + seq![0x5du8],
        decreases terms, 0nat,
    {
        proof {
            lemma_terms_view(terms@);
        }
        let ghost float_text = formatted_float(*format_float);
        let ghost transform = self.transforms();
        let ghost items = terms_view(terms@);
        out.push(0x5b);
        let ghost head = out@;
        let mut i: usize = 0;
        while i < terms.len()
            invariant
                is_float_printer(*format_float),
                float_text == formatted_float(*format_float),
                transform == self.transforms(),
                i <= terms.len(),
                items == terms_view(terms@),
                items.len() == terms.len(),
                forall|j: int| 0 <= j < terms.len() ==> (#[trigger] items[j]) == terms[j]@,
                out@ == head + json_items(items, i as nat, transform, float_text),
            decreases terms.len() - i,
        {
            if i > 0 {
                out.push(0x2c);
            }
            self.write_term(&terms[i], out, format_float);
            i = i + 1;
            assert(out@ =~= head + json_items(items, i as nat, transform, float_text));
        }
        out.push(0x5d);
        assert(out@ =~= old(out)@ + seq![0x5bu8] + json_items(
            items,
            terms.len() as nat,
            transform,
            float_text,
        ) + seq![0x5du8]);
    }
}

impl PrettyPrinter for JsonPrettyPrinter {
    /// The JSON of the term and a line feed.
    open spec fn rendering(&self, term: Term, float_text: FloatText) -> Seq<u8> {
        json_term(term, self.transforms(), float_text) + seq![0x0au8]
    }

    fn write<F: Fn(u64) -> Vec<u8>>(&self, term: &BertTerm, out: &mut Vec<u8>, format_float: &F) {
        self.write_term(term, out, format_float);
        out.push(0x0a);
        assert(out@ =~= old(out)@ + self.rendering(term@, formatted_float(*format_float)));
    }
}

/// Whether `bytes` are the name of the atom `true`.
fn is_true(bytes: &[u8]) -> (r: bool)
    ensures
        r == (bytes@ == true_name()),
{
    let r = bytes.len() == 4 && bytes[0] == 0x74 && bytes[1] == 0x72 && bytes[2] == 0x75
        && bytes[3] == 0x65;
    assert(r ==> bytes@ =~= true_name());
    r
}

/// Whether `bytes` are the name of the atom `false`.
fn is_false(bytes: &[u8]) -> (r: bool)
    ensures
        r == (bytes@ == false_name()),
{
    let r = bytes.len() == 5 && bytes[0] == 0x66 && bytes[1] == 0x61 && bytes[2] == 0x6c
        && bytes[3] == 0x73 && bytes[4] == 0x65;
    assert(r ==> bytes@ =~= false_name());
    r
}

} // verus!
