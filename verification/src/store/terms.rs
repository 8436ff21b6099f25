//! The flat store of terms: its records, and the term that records spell.

use vstd::prelude::*;
use vstd::utf8::decode_utf8;
use vstd::utf8::valid_utf8;
use crate::bertterm::Term;
use crate::bigint::BigInt;
use crate::text::utf8_to_string;
use vstd::slice::slice_subrange;
use vstd::slice::slice_to_vec;

verus! {

/// One term in the store. A tuple, a list or a map is followed by the
/// records of its elements. The bytes of an atom, a string or a binary stand
/// in the store's buffer, from `off` on.
#[derive(Debug)]
pub enum Tag {
    Int(i32),
    BigInt(Box<BigInt>),
    /// The IEEE 754 bits of a double-precision number.
    Float(u64),
    Atom { off: u32, len: u32 },
    String { off: u32, len: u32 },
    Binary { off: u32, len: u32 },
    /// A tuple of so many elements.
    Tuple(u32),
    /// The empty list where the number is 0, else a list of so many
    /// elements that is no list of properties.
    List(u32),
    /// A list of so many elements, all of them properties.
    Proplist(u32),
    /// A map of so many keys, each followed by its value.
    Mapping(u32),
}

impl Tag {
    /// Whether the record is that of an atom, a string or a binary.
    pub open spec fn spec_is_proplist_key(&self) -> bool {
        self is Atom || self is String || self is Binary
    }

    /// Whether the record is that of a basic term.
    pub open spec fn spec_is_simple(&self) -> bool {
        match *self {
            Tag::Tuple(_) => false,
            Tag::List(len) => len == 0,
            Tag::Proplist(_) => false,
            Tag::Mapping(_) => false,
            _ => true,
        }
    }

    /// Whether the record is that of an atom, a string or a binary.
    #[verifier::when_used_as_spec(spec_is_proplist_key)]
    pub fn is_proplist_key(&self) -> (b: bool)
        ensures
            b == self.spec_is_proplist_key(),
    {
        match self {
            Tag::Atom { .. } | Tag::String { .. } | Tag::Binary { .. } => true,
            _ => false,
        }
    }

    /// Whether the record is that of a basic term: of none with elements.
    #[verifier::when_used_as_spec(spec_is_simple)]
    pub fn is_simple(&self) -> (b: bool)
        ensures
            b == self.spec_is_simple(),
    {
        match self {
            Tag::Tuple(_) | Tag::Proplist(_) | Tag::Mapping(_) => false,
            Tag::List(len) => *len == 0,
            _ => true,
        }
    }
}

/// The `len` bytes of the buffer from `off` on, where the buffer has them.
pub open spec fn payload(bytes: Seq<u8>, off: u32, len: u32) -> Option<Seq<u8>> {
    if off + len <= bytes.len() {
        Some(bytes.subrange(off as int, off + len))
    } else {
        None
    }
}

/// Whether a reading that began at record `from` and ended at `to` went
/// forward inside the store. Every reading does (`lemma_term_in_bounds`);
/// the functions below ask it so that their recursion is well-founded.
pub open spec fn went_in(tags: Seq<Tag>, from: int, to: int) -> bool {
    from <= to <= tags.len()
}

/// The term whose record stands at `i`, and the index behind its last
/// record. There is none where the store ends too early, where a record
/// points outside the buffer, where the bytes of an atom are not UTF-8, or
/// where a list is marked as a list of properties and is none, or is one and
/// is not marked.
pub open spec fn term_in(tags: Seq<Tag>, bytes: Seq<u8>, i: int) -> Option<(Term, int)>
    decreases tags.len() - i, 0int,
{
    if !(0 <= i < tags.len()) {
        None
    } else {
        match tags[i] {
            Tag::Int(n) => Some((Term::Int(n), i + 1)),
            Tag::BigInt(n) => Some((Term::BigInt(n@), i + 1)),
            Tag::Float(bits) => Some((Term::Float(bits), i + 1)),
            Tag::Atom { off, len } => match payload(bytes, off, len) {
                Some(name) => if valid_utf8(name) {
                    Some((Term::Atom(decode_utf8(name)), i + 1))
                } else {
                    None
                },
                None => None,
            },
            Tag::String { off, len } => match payload(bytes, off, len) {
                Some(text) => Some((Term::String(text), i + 1)),
                None => None,
            },
            Tag::Binary { off, len } => match payload(bytes, off, len) {
                Some(data) => Some((Term::Binary(data), i + 1)),
                None => None,
            },
            Tag::Tuple(len) => match terms_in(tags, bytes, i + 1, len as nat) {
                Some((terms, end)) => Some((Term::Tuple(terms), end)),
                None => None,
            },
            Tag::List(len) => match terms_in(tags, bytes, i + 1, len as nat) {
                Some((terms, end)) => if len == 0 {
                    Some((Term::Nil, end))
                } else if Term::List(terms).is_proplist() {
                    None
                } else {
                    Some((Term::List(terms), end))
                },
                None => None,
            },
            Tag::Proplist(len) => match terms_in(tags, bytes, i + 1, len as nat) {
                Some((terms, end)) => if Term::List(terms).is_proplist() {
                    Some((Term::List(terms), end))
                } else {
                    None
                },
                None => None,
            },
            Tag::Mapping(len) => match pairs_in(tags, bytes, i + 1, len as nat) {
                Some((pairs, end)) => Some((Term::Mapping(pairs.0, pairs.1), end)),
                None => None,
            },
        }
    }
}

/// The `count` terms whose records stand one behind the other from `i` on.
pub open spec fn terms_in(tags: Seq<Tag>, bytes: Seq<u8>, i: int, count: nat) -> Option<
    (Seq<Term>, int),
>
    decreases tags.len() - i, count + 1,
{
    if count == 0 {
        Some((Seq::empty(), i))
    } else {
        match terms_in(tags, bytes, i, (count - 1) as nat) {
            None => None,
            Some((terms, p)) => if !went_in(tags, i, p) {
                None
            } else {
                match term_in(tags, bytes, p) {
                    None => None,
                    Some((term, end)) => Some((terms.push(term), end)),
                }
            },
        }
    }
}

/// The `count` pairs of a key and a value whose records stand from `i` on.
pub open spec fn pairs_in(tags: Seq<Tag>, bytes: Seq<u8>, i: int, count: nat) -> Option<
    ((Seq<Term>, Seq<Term>), int),
>
    decreases tags.len() - i, count + 1,
{
    if count == 0 {
        Some(((Seq::empty(), Seq::empty()), i))
    } else {
        match pairs_in(tags, bytes, i, (count - 1) as nat) {
            None => None,
            Some((pairs, p)) => if !went_in(tags, i, p) {
                None
            } else {
                match term_in(tags, bytes, p) {
                    None => None,
                    Some((key, q)) => if !went_in(tags, p, q) {
                        None
                    } else {
                        match term_in(tags, bytes, q) {
                            None => None,
                            Some((val, end)) => Some(
                                ((pairs.0.push(key), pairs.1.push(val)), end),
                            ),
                        }
                    },
                }
            },
        }
    }
}

/// What a reading gave. Only asked of a reading that gave something.
pub open spec fn value_of<T>(read: Option<(T, int)>) -> T {
    match read {
        Some((value, _)) => value,
        None => arbitrary(),
    }
}

/// Where a reading ended. Only asked of a reading that gave something.
pub open spec fn end_of<T>(read: Option<(T, int)>) -> int {
    match read {
        Some((_, end)) => end,
        None => 0,
    }
}

/// A term takes at least one record, and its records are in the store.
pub proof fn lemma_term_in_bounds(tags: Seq<Tag>, bytes: Seq<u8>, i: int)
    ensures
        term_in(tags, bytes, i) is Some ==> i < end_of(term_in(tags, bytes, i)) <= tags.len(),
    decreases tags.len() - i, 0int,
{
    if 0 <= i < tags.len() {
        match tags[i] {
            Tag::Tuple(len) => lemma_terms_in_bounds(tags, bytes, i + 1, len as nat),
            Tag::List(len) => lemma_terms_in_bounds(tags, bytes, i + 1, len as nat),
            Tag::Proplist(len) => lemma_terms_in_bounds(tags, bytes, i + 1, len as nat),
            Tag::Mapping(len) => lemma_pairs_in_bounds(tags, bytes, i + 1, len as nat),
            _ => {},
        }
    }
}

/// A run of terms is as long as was asked for, takes at least one record for
/// each term, and its records are in the store.
pub proof fn lemma_terms_in_bounds(tags: Seq<Tag>, bytes: Seq<u8>, i: int, count: nat)
    requires
        0 <= i <= tags.len(),
    ensures
        terms_in(tags, bytes, i, count) is Some ==> value_of(
            terms_in(tags, bytes, i, count),
        ).len() == count && i + count <= end_of(terms_in(tags, bytes, i, count)) <= tags.len(),
    decreases tags.len() - i, count + 1,
{
    if count > 0 {
        lemma_terms_in_bounds(tags, bytes, i, (count - 1) as nat);
        match terms_in(tags, bytes, i, (count - 1) as nat) {
            Some((_, p)) => {
                if went_in(tags, i, p) {
                    lemma_term_in_bounds(tags, bytes, p);
                }
            },
            None => {},
        }
    }
}

/// A run of pairs has as many keys and as many values as was asked for,
/// takes at least two records for each pair, and its records are in the
/// store.
pub proof fn lemma_pairs_in_bounds(tags: Seq<Tag>, bytes: Seq<u8>, i: int, count: nat)
    requires
        0 <= i <= tags.len(),
    ensures
        pairs_in(tags, bytes, i, count) is Some ==> value_of(
            pairs_in(tags, bytes, i, count),
        ).0.len() == count && value_of(pairs_in(tags, bytes, i, count)).1.len() == count && i + 2
            * count <= end_of(pairs_in(tags, bytes, i, count)) <= tags.len(),
    decreases tags.len() - i, count + 1,
{
    if count > 0 {
        lemma_pairs_in_bounds(tags, bytes, i, (count - 1) as nat);
        match pairs_in(tags, bytes, i, (count - 1) as nat) {
            Some((_, p)) => {
                if went_in(tags, i, p) {
                    lemma_term_in_bounds(tags, bytes, p);
                    match term_in(tags, bytes, p) {
                        Some((_, q)) => {
                            lemma_term_in_bounds(tags, bytes, q);
                        },
                        None => {},
                    }
                }
            },
            None => {},
        }
    }
}

/// The records from `i` up to `j` are the same in both stores.
pub open spec fn same_records(a: Seq<Tag>, b: Seq<Tag>, i: int, j: int) -> bool {
    &&& j <= a.len()
    &&& j <= b.len()
    &&& forall|k: int| i <= k < j ==> a[k] == b[k]
}

/// The buffer `b` begins with the buffer `a`.
pub open spec fn begins_with(b: Seq<u8>, a: Seq<u8>) -> bool {
    a.len() <= b.len() && b.subrange(0, a.len() as int) == a
}

/// The bytes that a record points at stay what they are when bytes are added to
/// the buffer.
proof fn lemma_payload_stable(a: Seq<u8>, b: Seq<u8>, off: u32, len: u32)
    requires
        begins_with(b, a),
        payload(a, off, len) is Some,
    ensures
        payload(b, off, len) == payload(a, off, len),
{
    assert(b.subrange(off as int, off + len) =~= b.subrange(0, a.len() as int).subrange(
        off as int,
        off + len,
    ));
}

/// A term in the store stays what it is when records are changed or added
/// outside its own, and when bytes are added to the buffer.
pub proof fn lemma_term_in_stable(
    tags: Seq<Tag>,
    bytes: Seq<u8>,
    tags2: Seq<Tag>,
    bytes2: Seq<u8>,
    i: int,
)
    requires
        term_in(tags, bytes, i) is Some,
        same_records(tags, tags2, i, end_of(term_in(tags, bytes, i))),
        begins_with(bytes2, bytes),
    ensures
        term_in(tags2, bytes2, i) == term_in(tags, bytes, i),
    decreases tags.len() - i, 0int,
{
    lemma_term_in_bounds(tags, bytes, i);
    assert(tags[i] == tags2[i]);
    match tags[i] {
        Tag::Atom { off, len } => lemma_payload_stable(bytes, bytes2, off, len),
        Tag::String { off, len } => lemma_payload_stable(bytes, bytes2, off, len),
        Tag::Binary { off, len } => lemma_payload_stable(bytes, bytes2, off, len),
        Tag::Tuple(len) => lemma_terms_in_stable(tags, bytes, tags2, bytes2, i + 1, len as nat),
        Tag::List(len) => lemma_terms_in_stable(tags, bytes, tags2, bytes2, i + 1, len as nat),
        Tag::Proplist(len) => lemma_terms_in_stable(tags, bytes, tags2, bytes2, i + 1, len as nat),
        Tag::Mapping(len) => lemma_pairs_in_stable(tags, bytes, tags2, bytes2, i + 1, len as nat),
        _ => {},
    }
}

/// A run of terms in the store stays what it is when records are changed or
/// added outside its own, and when bytes are added to the buffer.
pub proof fn lemma_terms_in_stable(
    tags: Seq<Tag>,
    bytes: Seq<u8>,
    tags2: Seq<Tag>,
    bytes2: Seq<u8>,
    i: int,
    count: nat,
)
    requires
        0 <= i <= tags.len(),
        terms_in(tags, bytes, i, count) is Some,
        same_records(tags, tags2, i, end_of(terms_in(tags, bytes, i, count))),
        begins_with(bytes2, bytes),
    ensures
        terms_in(tags2, bytes2, i, count) == terms_in(tags, bytes, i, count),
    decreases tags.len() - i, count + 1,
{
    if count > 0 {
        let before = terms_in(tags, bytes, i, (count - 1) as nat);
        let p = end_of(before);
        lemma_terms_in_bounds(tags, bytes, i, (count - 1) as nat);
        lemma_term_in_bounds(tags, bytes, p);
        lemma_terms_in_stable(tags, bytes, tags2, bytes2, i, (count - 1) as nat);
        lemma_term_in_stable(tags, bytes, tags2, bytes2, p);
    }
}

/// A run of pairs in the store stays what it is when records are changed or
/// added outside its own, and when bytes are added to the buffer.
pub proof fn lemma_pairs_in_stable(
    tags: Seq<Tag>,
    bytes: Seq<u8>,
    tags2: Seq<Tag>,
    bytes2: Seq<u8>,
    i: int,
    count: nat,
)
    requires
        0 <= i <= tags.len(),
        pairs_in(tags, bytes, i, count) is Some,
        same_records(tags, tags2, i, end_of(pairs_in(tags, bytes, i, count))),
        begins_with(bytes2, bytes),
    ensures
        pairs_in(tags2, bytes2, i, count) == pairs_in(tags, bytes, i, count),
    decreases tags.len() - i, count + 1,
{
    if count > 0 {
        let before = pairs_in(tags, bytes, i, (count - 1) as nat);
        let p = end_of(before);
        let q = end_of(term_in(tags, bytes, p));
        lemma_pairs_in_bounds(tags, bytes, i, (count - 1) as nat);
        lemma_term_in_bounds(tags, bytes, p);
        lemma_term_in_bounds(tags, bytes, q);
        lemma_pairs_in_stable(tags, bytes, tags2, bytes2, i, (count - 1) as nat);
        lemma_term_in_stable(tags, bytes, tags2, bytes2, p);
        lemma_term_in_stable(tags, bytes, tags2, bytes2, q);
    }
}

/// Where a run of terms can be read, so can every shorter run from the same
/// record on, and it gives the first terms of the longer run.
pub proof fn lemma_terms_in_prefix(tags: Seq<Tag>, bytes: Seq<u8>, i: int, k: nat, count: nat)
    requires
        0 <= i <= tags.len(),
        k <= count,
        terms_in(tags, bytes, i, count) is Some,
    ensures
        terms_in(tags, bytes, i, k) matches Some((terms, end)) && terms == value_of(
            terms_in(tags, bytes, i, count),
        ).subrange(0, k as int) && i <= end <= end_of(terms_in(tags, bytes, i, count)),
    decreases count,
{
    lemma_terms_in_bounds(tags, bytes, i, count);
    let all = value_of(terms_in(tags, bytes, i, count));
    if k < count {
        lemma_terms_in_prefix(tags, bytes, i, k, (count - 1) as nat);
        let before = terms_in(tags, bytes, i, (count - 1) as nat);
        lemma_term_in_bounds(tags, bytes, end_of(before));
        assert(value_of(before).subrange(0, k as int) =~= all.subrange(0, k as int));
    } else {
        assert(all.subrange(0, k as int) =~= all);
    }
}

/// Where a run of pairs can be read, so can every shorter run from the same
/// record on, and it gives the first pairs of the longer run.
pub proof fn lemma_pairs_in_prefix(tags: Seq<Tag>, bytes: Seq<u8>, i: int, k: nat, count: nat)
    requires
        0 <= i <= tags.len(),
        k <= count,
        pairs_in(tags, bytes, i, count) is Some,
    ensures
        pairs_in(tags, bytes, i, k) matches Some((pairs, end)) && pairs.0 == value_of(
            pairs_in(tags, bytes, i, count),
        ).0.subrange(0, k as int) && pairs.1 == value_of(
            pairs_in(tags, bytes, i, count),
        ).1.subrange(0, k as int) && i <= end <= end_of(pairs_in(tags, bytes, i, count)),
    decreases count,
{
    lemma_pairs_in_bounds(tags, bytes, i, count);
    let all = value_of(pairs_in(tags, bytes, i, count));
    if k < count {
        lemma_pairs_in_prefix(tags, bytes, i, k, (count - 1) as nat);
        let before = pairs_in(tags, bytes, i, (count - 1) as nat);
        let p = end_of(before);
        lemma_term_in_bounds(tags, bytes, p);
        lemma_term_in_bounds(tags, bytes, end_of(term_in(tags, bytes, p)));
        assert(value_of(before).0.subrange(0, k as int) =~= all.0.subrange(0, k as int));
        assert(value_of(before).1.subrange(0, k as int) =~= all.1.subrange(0, k as int));
    } else {
        assert(all.0.subrange(0, k as int) =~= all.0);
        assert(all.1.subrange(0, k as int) =~= all.1);
    }
}

/// A term is basic when its record is, and then it takes one record. It is
/// the empty list when its record is that of the empty list.
pub proof fn lemma_simple_record(tags: Seq<Tag>, bytes: Seq<u8>, i: int)
    requires
        term_in(tags, bytes, i) is Some,
    ensures
        value_of(term_in(tags, bytes, i)).is_basic() == tags[i].spec_is_simple(),
        tags[i].spec_is_simple() ==> end_of(term_in(tags, bytes, i)) == i + 1,
        value_of(term_in(tags, bytes, i)) is Nil == (tags[i] == Tag::List(0)),
        value_of(term_in(tags, bytes, i)).is_proplist_key() == tags[i].spec_is_proplist_key(),
{
    match tags[i] {
        Tag::List(len) => {
            if len == 0 {
                assert(terms_in(tags, bytes, i + 1, 0) == Some((Seq::<Term>::empty(), i + 1)));
            }
        },
        _ => {},
    }
}

/// A term is a property when its record is that of a tuple of two elements
/// and the next record is that of an atom, a string or a binary.
pub proof fn lemma_property_record(tags: Seq<Tag>, bytes: Seq<u8>, i: int)
    requires
        term_in(tags, bytes, i) is Some,
    ensures
        value_of(term_in(tags, bytes, i)).is_proplist_entry() == (tags[i] == Tag::Tuple(2) && tags[i
            + 1].spec_is_proplist_key()),
        tags[i] == Tag::Tuple(2) ==> {
            &&& term_in(tags, bytes, i + 1) matches Some((key, q))
            &&& term_in(tags, bytes, q) matches Some((val, end))
            &&& i + 1 < q < end
            &&& term_in(tags, bytes, i) == Some((Term::Tuple(seq![key, val]), end))
        },
{
    lemma_term_in_bounds(tags, bytes, i);
    match tags[i] {
        Tag::Tuple(len) => {
            lemma_terms_in_bounds(tags, bytes, i + 1, len as nat);
            if len == 2 {
                reveal_with_fuel(terms_in, 3);
                let key = term_in(tags, bytes, i + 1);
                lemma_term_in_bounds(tags, bytes, i + 1);
                let q = end_of(key);
                lemma_term_in_bounds(tags, bytes, q);
                lemma_simple_record(tags, bytes, i + 1);
                let kv = value_of(terms_in(tags, bytes, i + 1, 2));
                assert(kv =~= seq![value_of(key), value_of(term_in(tags, bytes, q))]);
            }
        },
        _ => {},
    }
}

/// The store: the records of the terms, and the bytes that they refer to.
#[derive(Debug)]
pub struct Terms {
    pub tags: Vec<Tag>,
    pub bytes: Vec<u8>,
}

impl Default for Terms {
    /// The empty store.
    fn default() -> (terms: Self)
        ensures
            terms.tags@.len() == 0,
            terms.bytes@.len() == 0,
    {
        Terms { tags: Vec::new(), bytes: Vec::new() }
    }
}

impl Terms {
    /// The term whose record stands at `i`, and the index behind its last
    /// record.
    pub open spec fn term(&self, i: int) -> Option<(Term, int)> {
        term_in(self.tags@, self.bytes@, i)
    }

    /// Empties the store.
    pub fn clear(&mut self)
        ensures
            final(self).tags@.len() == 0,
            final(self).bytes@.len() == 0,
    {
        self.tags.clear();
        self.bytes.clear();
    }

    /// Appends a record.
    pub fn push_tag(&mut self, t: Tag)
        ensures
            final(self).tags@ == old(self).tags@.push(t),
            final(self).bytes@ == old(self).bytes@,
    {
        self.tags.push(t);
    }

    /// Takes the last record away.
    pub fn pop_tag(&mut self)
        ensures
            old(self).tags@.len() > 0 ==> final(self).tags@ == old(self).tags@.drop_last(),
            old(self).tags@.len() == 0 ==> final(self).tags@ == old(self).tags@,
            final(self).bytes@ == old(self).bytes@,
    {
        self.tags.pop();
    }

    /// Appends bytes to the buffer, and tells where they stand and how many
    /// they are.
    pub fn push_bytes(&mut self, buf: &[u8]) -> (place: (u32, u32))
        requires
            old(self).bytes@.len() + buf@.len() <= u32::MAX,
        ensures
            final(self).tags@ == old(self).tags@,
            final(self).bytes@ == old(self).bytes@ + buf@,
            place.0 == old(self).bytes@.len(),
            place.1 == buf@.len(),
            payload(final(self).bytes@, place.0, place.1) == Some(buf@),
    {
        let off = self.bytes.len();
        crate::wire::push_all(&mut self.bytes, buf);
        assert(self.bytes@.subrange(off as int, off + buf@.len()) =~= buf@);
        (off as u32, buf.len() as u32)
    }
}

/// Once the reading of a run of terms has failed, it fails however many
/// more terms are asked for.
pub proof fn lemma_terms_in_none(tags: Seq<Tag>, bytes: Seq<u8>, i: int, k: nat, count: nat)
    requires
        k <= count,
        terms_in(tags, bytes, i, k) is None,
    ensures
        terms_in(tags, bytes, i, count) is None,
    decreases count,
{
    if k < count {
        lemma_terms_in_none(tags, bytes, i, k, (count - 1) as nat);
    }
}

/// Once the reading of a run of pairs has failed, it fails however many
/// more pairs are asked for.
pub proof fn lemma_pairs_in_none(tags: Seq<Tag>, bytes: Seq<u8>, i: int, k: nat, count: nat)
    requires
        k <= count,
        pairs_in(tags, bytes, i, k) is None,
    ensures
        pairs_in(tags, bytes, i, count) is None,
    decreases count,
{
    if k < count {
        lemma_pairs_in_none(tags, bytes, i, k, (count - 1) as nat);
    }
}

/// A list with one more element is a list of properties when the list
/// without it is one and the element is a property.
pub proof fn lemma_proplist_push(terms: Seq<Term>, term: Term)
    ensures
        Term::List(terms.push(term)).is_proplist() == (Term::List(terms).is_proplist()
            && term.is_proplist_entry()),
{
    let longer = terms.push(term);
    let short_list = Term::List(terms);
    let long_list = Term::List(longer);
    assert(short_list->List_0 == terms);
    assert(long_list->List_0 == longer);
    if short_list.is_proplist() && term.is_proplist_entry() {
        assert forall|i: int| 0 <= i < longer.len() implies (#[trigger] longer[i])
            .is_proplist_entry() by {
            if i < terms.len() {
                assert(terms[i].is_proplist_entry());
                assert(longer[i] == terms[i]);
            }
        }
        assert(long_list.is_proplist());
    }
    if long_list.is_proplist() {
        assert(longer[terms.len() as int].is_proplist_entry());
        assert forall|i: int| 0 <= i < terms.len() implies (#[trigger] terms[i])
            .is_proplist_entry() by {
            assert(longer[i].is_proplist_entry());
            assert(longer[i] == terms[i]);
        }
        assert(short_list.is_proplist());
    }
}

impl Terms {
    /// Whether the record at `index` and the one behind it are those of a
    /// property: a tuple of two elements with an atom, a string or a binary
    /// in the first place.
    pub fn is_property(&self, index: usize) -> (b: bool)
        requires
            self.term(index as int) is Some,
        ensures
            b == value_of(self.term(index as int)).is_proplist_entry(),
    {
        proof {
            lemma_term_in_bounds(self.tags@, self.bytes@, index as int);
            lemma_property_record(self.tags@, self.bytes@, index as int);
            if self.tags@[index as int] == Tag::Tuple(2) {
                lemma_term_in_bounds(self.tags@, self.bytes@, index + 1);
            }
            assert(index < self.tags@.len());
        }
        let count = self.tags.len();
        if index >= count || index + 1 >= count {
            return false;
        }
        match self.tags[index] {
            Tag::Tuple(len) => len == 2 && self.tags[index + 1].is_proplist_key(),
            _ => false,
        }
    }

    /// The bytes that a record points at, where the buffer has them.
    fn payload_at(&self, off: u32, len: u32) -> (bytes: Option<&[u8]>)
        ensures
            match payload(self.bytes@, off, len) {
                Some(b) => bytes matches Some(found) && found@ == b,
                None => bytes is None,
            },
    {
        let held = self.bytes.len();
        if off as usize > held || len as usize > held - off as usize {
            return None;
        }
        Some(slice_subrange(self.bytes.as_slice(), off as usize, off as usize + len as usize))
    }

    /// The index behind the records of the term whose record stands at
    /// `index`; nothing where no term stands there.
    pub fn check_term(&self, index: usize) -> (end: Option<usize>)
        ensures
            match self.term(index as int) {
                Some((_, e)) => end == Some(e as usize) && e <= self.tags@.len(),
                None => end is None,
            },
        decreases self.tags@.len() - index, 0int,
    {
        let count = self.tags.len();
        if index >= count {
            return None;
        }
        proof {
            lemma_term_in_bounds(self.tags@, self.bytes@, index as int);
        }
        match &self.tags[index] {
            Tag::Int(_) => Some(index + 1),
            Tag::BigInt(_) => Some(index + 1),
            Tag::Float(_) => Some(index + 1),
            Tag::Atom { off, len } => match self.payload_at(*off, *len) {
                Some(name) => if utf8_to_string(slice_to_vec(name)).is_some() {
                    Some(index + 1)
                } else {
                    None
                },
                None => None,
            },
            Tag::String { off, len } => match self.payload_at(*off, *len) {
                Some(_) => Some(index + 1),
                None => None,
            },
            Tag::Binary { off, len } => match self.payload_at(*off, *len) {
                Some(_) => Some(index + 1),
                None => None,
            },
            Tag::Tuple(len) => match self.check_terms(index + 1, *len) {
                Some((end, _)) => Some(end),
                None => None,
            },
            Tag::List(len) => match self.check_terms(index + 1, *len) {
                Some((end, all)) => if *len == 0 || !all {
                    Some(end)
                } else {
                    None
                },
                None => None,
            },
            Tag::Proplist(len) => match self.check_terms(index + 1, *len) {
                Some((end, all)) => if all {
                    Some(end)
                } else {
                    None
                },
                None => None,
            },
            Tag::Mapping(len) => self.check_pairs(index + 1, *len),
        }
    }

    /// The index behind the records of the `count` terms whose records stand
    /// from `start` on, and whether all of them are properties; nothing
    /// where no such run of terms stands there.
    fn check_terms(&self, start: usize, count: u32) -> (r: Option<(usize, bool)>)
        requires
            start <= self.tags@.len(),
        ensures
            match terms_in(self.tags@, self.bytes@, start as int, count as nat) {
                Some((elems, e)) => r == Some((e as usize, Term::List(elems).is_proplist())) && e
                    <= self.tags@.len(),
                None => r is None,
            },
        decreases self.tags@.len() - start, 1int,
    {
        let ghost done: Seq<Term> = Seq::empty();
        let total = self.tags.len();
        let mut all = true;
        let mut pos = start;
        let mut k: u32 = 0;
        while k < count
            invariant
                k <= count,
                total == self.tags@.len(),
                start <= pos <= self.tags@.len(),
                terms_in(self.tags@, self.bytes@, start as int, k as nat) == Some(
                    (done, pos as int),
                ),
                all == Term::List(done).is_proplist(),
            decreases count - k,
        {
            match self.check_term(pos) {
                Some(end) => {
                    proof {
                        lemma_term_in_bounds(self.tags@, self.bytes@, pos as int);
                        lemma_proplist_push(done, value_of(self.term(pos as int)));
                        done = done.push(value_of(self.term(pos as int)));
                    }
                    let is_entry = self.is_property(pos);
                    all = all && is_entry;
                    pos = end;
                },
                None => {
                    proof {
                        lemma_terms_in_none(
                            self.tags@,
                            self.bytes@,
                            start as int,
                            (k + 1) as nat,
                            count as nat,
                        );
                    }
                    return None;
                },
            }
            k = k + 1;
        }
        Some((pos, all))
    }

    /// The index behind the records of the `count` pairs whose records stand
    /// from `start` on; nothing where no such run of pairs stands there.
    fn check_pairs(&self, start: usize, count: u32) -> (r: Option<usize>)
        requires
            start <= self.tags@.len(),
        ensures
            match pairs_in(self.tags@, self.bytes@, start as int, count as nat) {
                Some((_, e)) => r == Some(e as usize) && e <= self.tags@.len(),
                None => r is None,
            },
        decreases self.tags@.len() - start, 1int,
    {
        let ghost keys: Seq<Term> = Seq::empty();
        let ghost vals: Seq<Term> = Seq::empty();
        let total = self.tags.len();
        let mut pos = start;
        let mut k: u32 = 0;
        while k < count
            invariant
                k <= count,
                total == self.tags@.len(),
                start <= pos <= self.tags@.len(),
                pairs_in(self.tags@, self.bytes@, start as int, k as nat) == Some(
                    ((keys, vals), pos as int),
                ),
            decreases count - k,
        {
            let key_end = match self.check_term(pos) {
                Some(end) => end,
                None => {
                    proof {
                        lemma_pairs_in_none(
                            self.tags@,
                            self.bytes@,
                            start as int,
                            (k + 1) as nat,
                            count as nat,
                        );
                    }
                    return None;
                },
            };
            proof {
                lemma_term_in_bounds(self.tags@, self.bytes@, pos as int);
            }
            let val_end = match self.check_term(key_end) {
                Some(end) => end,
                None => {
                    proof {
                        lemma_pairs_in_none(
                            self.tags@,
                            self.bytes@,
                            start as int,
                            (k + 1) as nat,
                            count as nat,
                        );
                    }
                    return None;
                },
            };
            proof {
                lemma_term_in_bounds(self.tags@, self.bytes@, key_end as int);
                keys = keys.push(value_of(self.term(pos as int)));
                vals = vals.push(value_of(self.term(key_end as int)));
            }
            pos = val_end;
            k = k + 1;
        }
        Some(pos)
    }
}

} // verus!
