//! Terms in memory, and the mathematical terms that they stand for.

use vstd::prelude::*;
use crate::bigint::BigInt;

verus! {

/// A term as a mathematical value. Contracts speak of terms in this form.
pub enum Term {
    /// The empty list.
    Nil,
    /// An integer of 32 bits.
    Int(i32),
    /// An integer of any size.
    BigInt(int),
    /// A double-precision number, given by its IEEE 754 bits.
    Float(u64),
    /// An atom, by its name.
    Atom(Seq<char>),
    /// A list of small integers, kept as bytes.
    String(Seq<u8>),
    /// A sequence of bytes.
    Binary(Seq<u8>),
    /// A fixed number of terms.
    Tuple(Seq<Term>),
    /// Any number of terms.
    List(Seq<Term>),
    /// Keys and, at the same places, their values.
    Mapping(Seq<Term>, Seq<Term>),
}

impl Term {
    /// Tuples, lists and maps are not basic; every other term is.
    pub open spec fn is_basic(self) -> bool {
        !(self is Tuple || self is List || self is Mapping)
    }

    /// What may stand as the key of a property: an atom, a string or a binary.
    pub open spec fn is_proplist_key(self) -> bool {
        self is Atom || self is String || self is Binary
    }

    /// A property: a tuple of a key and one more term.
    pub open spec fn is_proplist_entry(self) -> bool {
        self matches Term::Tuple(kv) && kv.len() == 2 && kv[0].is_proplist_key()
    }

    /// Whether every map in the term has as many values as keys.
    pub open spec fn is_paired(self) -> bool
        decreases self,
    {
        match self {
            Term::Tuple(terms) => forall|i: int|
                0 <= i < terms.len() ==> (#[trigger] terms[i]).is_paired(),
            Term::List(terms) => forall|i: int|
                0 <= i < terms.len() ==> (#[trigger] terms[i]).is_paired(),
            Term::Mapping(keys, vals) => keys.len() == vals.len() && (forall|i: int|
                0 <= i < keys.len() ==> (#[trigger] keys[i]).is_paired()) && (forall|i: int|
                0 <= i < vals.len() ==> (#[trigger] vals[i]).is_paired()),
            _ => true,
        }
    }

    /// A list in which every element is a property.
    pub open spec fn is_proplist(self) -> bool {
        self matches Term::List(elems) && forall|i: int|
            0 <= i < elems.len() ==> (#[trigger] elems[i]).is_proplist_entry()
    }
}

/// A term in memory.
#[derive(Debug, PartialEq)]
pub enum BertTerm {
    /// The empty list.
    Nil,
    /// A signed 32-bit integer.
    Int(i32),
    /// A signed integer of any size.
    BigInt(BigInt),
    /// A double-precision floating-point number, held as its IEEE 754 bits.
    Float(u64),
    /// An atom.
    Atom(String),
    /// A Latin-1 string, held as bytes.
    String(Vec<u8>),
    /// An array of bytes.
    Binary(Vec<u8>),
    /// A container for a fixed number of elements.
    Tuple(Vec<BertTerm>),
    /// A container for any number of elements.
    List(Vec<BertTerm>),
    /// Keys and, at the same places, their values.
    Mapping(Vec<BertTerm>, Vec<BertTerm>),
}

/// The mathematical terms that the elements of `terms` stand for.
pub open spec fn terms_view(terms: Seq<BertTerm>) -> Seq<Term>
    decreases terms,
{
    Seq::new(
        terms.len(),
        |i: int|
            if 0 <= i < terms.len() {
                terms[i].view()
            } else {
                Term::Nil
            },
    )
}

/// `terms_view` goes element by element.
pub proof fn lemma_terms_view(terms: Seq<BertTerm>)
    ensures
        terms_view(terms).len() == terms.len(),
        forall|i: int| 0 <= i < terms.len() ==> (#[trigger] terms_view(terms)[i]) == terms[i]@,
{
}

impl View for BertTerm {
    type V = Term;

    open spec fn view(&self) -> Term
        decreases self,
    {
        match self {
            BertTerm::Nil => Term::Nil,
            BertTerm::Int(n) => Term::Int(*n),
            BertTerm::BigInt(n) => Term::BigInt(n@),
            BertTerm::Float(bits) => Term::Float(*bits),
            BertTerm::Atom(name) => Term::Atom(name@),
            BertTerm::String(bytes) => Term::String(bytes@),
            BertTerm::Binary(bytes) => Term::Binary(bytes@),
            BertTerm::Tuple(terms) => Term::Tuple(terms_view(terms@)),
            BertTerm::List(terms) => Term::List(terms_view(terms@)),
            BertTerm::Mapping(keys, vals) => Term::Mapping(terms_view(keys@), terms_view(vals@)),
        }
    }
}

impl BertTerm {
    /// Lists, tuples and maps are not basic terms; everything else is.
    pub fn is_basic(&self) -> (b: bool)
        ensures
            b == self@.is_basic(),
    {
        match self {
            BertTerm::Int(_)
            | BertTerm::BigInt(_)
            | BertTerm::Float(_)
            | BertTerm::Atom(_)
            | BertTerm::String(_)
            | BertTerm::Binary(_)
            | BertTerm::Nil => true,
            BertTerm::List(_) | BertTerm::Tuple(_) | BertTerm::Mapping(_, _) => false,
        }
    }

    /// Whether the term can be the key of a property.
    pub fn is_proplist_key(&self) -> (b: bool)
        ensures
            b == self@.is_proplist_key(),
    {
        match self {
            BertTerm::Atom(_) | BertTerm::String(_) | BertTerm::Binary(_) => true,
            _ => false,
        }
    }

    /// Whether the term is a tuple of a key and one more term.
    pub fn is_proplist_entry(&self) -> (b: bool)
        ensures
            b == self@.is_proplist_entry(),
    {
        match self {
            BertTerm::Tuple(elems) => {
                proof {
                    lemma_terms_view(elems@);
                }
                elems.len() == 2 && elems[0].is_proplist_key()
            },
            _ => false,
        }
    }

    /// A term is a proplist if it is a list of tuples of two elements, each
    /// with an atom, a string or a binary in the first place.
    pub fn is_proplist(&self) -> (b: bool)
        ensures
            b == self@.is_proplist(),
    {
        match self {
            BertTerm::List(elems) => {
                proof {
                    lemma_terms_view(elems@);
                }
                let mut i: usize = 0;
                while i < elems.len()
                    invariant
                        i <= elems.len(),
                        self@ == Term::List(terms_view(elems@)),
                        terms_view(elems@).len() == elems.len(),
                        forall|j: int|
                            0 <= j < elems.len() ==> (#[trigger] terms_view(elems@)[j])
                                == elems[j]@,
                        forall|j: int|
                            0 <= j < i ==> (#[trigger] terms_view(elems@)[j]).is_proplist_entry(),
                    decreases elems.len() - i,
                {
                    if !elems[i].is_proplist_entry() {
                        assert(!self@.is_proplist()) by {
                            let elems_view = terms_view(elems@);
                            assert(!elems_view[i as int].is_proplist_entry());
                            if self@.is_proplist() {
                                assert(self@->List_0[i as int].is_proplist_entry());
                            }
                        }
                        return false;
                    }
                    i = i + 1;
                }
                true
            },
            _ => false,
        }
    }
}

} // verus!
