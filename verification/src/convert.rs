//! Writing the length prefix of a record.

use vstd::prelude::*;
use crate::bertterm::BertTerm;
use crate::bertterm::Term;
use crate::bertterm::lemma_terms_view;
use crate::bertterm::terms_view;
use crate::error::BertError;
use crate::grammar::pow128;
use crate::grammar::varint_at;
use crate::grammar::varint_from;
use crate::pp::bert::BertWriter;
use crate::pp::bert::encoding;

verus! {

/// The bytes of a length prefix: seven bits of the number in each byte, the
/// low bits first, and 128 added to every byte but the last. Zero has no
/// bytes.
pub open spec fn leb128(n: nat) -> Seq<u8>
    decreases n,
{
    if n == 0 {
        Seq::empty()
    } else {
        seq![(n % 128 + if n > 127 {
            128nat
        } else {
            0nat
        }) as u8] + leb128(n / 128)
    }
}

/// The length prefix of a record of `n` bytes.
pub fn usize_to_leb128(n: usize) -> (bytes: Vec<u8>)
    ensures
        bytes@ == leb128(n as nat),
{
    let mut n: u64 = n as u64;
    let ghost whole: nat = n as nat;
    let mut bytes: Vec<u8> = Vec::new();
    while n > 0
        invariant
            leb128(whole) == bytes@ + leb128(n as nat),
        decreases n,
    {
        let mut x: u8 = (n & 0x7f) as u8;
        if n > 127 {
            x = x | 0x80;
        }
        let m: u64 = n;
        assert(m & 0x7f == m % 128 && m >> 7 == m / 128 && (m & 0x7f) < 128) by (bit_vector);
        let low: u8 = (m & 0x7f) as u8;
        assert(low | 0x80 == low + 128) by (bit_vector)
            requires
                low < 128,
        ;
        let ghost before = bytes@;
        bytes.push(x);
        n = n >> 7;
        assert(leb128(m as nat) =~= seq![x] + leb128(n as nat));
        assert(bytes@ + leb128(n as nat) =~= before + (seq![x] + leb128(n as nat)));
    }
    assert(bytes@ + leb128(0) =~= bytes@);
    bytes
}

/// Reading a length prefix from its `count`-th byte on gives the number whose
/// low bits were gathered in `acc` and whose other bits are `n`.
proof fn lemma_varint_from_leb128(
    n: nat,
    buf: Seq<u8>,
    pos: int,
    start: int,
    count: nat,
    acc: nat,
)
    requires
        n > 0,
        0 <= pos,
        pos + leb128(n).len() <= buf.len(),
        buf.subrange(pos, pos + leb128(n).len()) == leb128(n),
        acc + n * pow128(count) < 0x1_0000_0000_0000_0000,
        n * pow128(count) < pow128(8),
    ensures
        varint_from(buf, pos, start, count, acc) == Ok::<(u64, int), BertError>(
            ((acc + n * pow128(count)) as u64, pos + leb128(n).len()),
        ),
    decreases n,
{
    let e = leb128(n);
    let p = pow128(count);
    assert(buf[pos] == e[0]) by {
        assert(buf.subrange(pos, pos + e.len())[0] == buf[pos]);
    }
    lemma_pow128_positive(count);
    if count >= 8 {
        lemma_pow128_monotonic(8, count);
        assert(n * p >= p) by (nonlinear_arith)
            requires
                n >= 1,
                p >= 0,
        ;
    }
    assert(count < 8);
    assert(n == 128 * (n / 128) + n % 128);
    if n > 127 {
        let rest = n / 128;
        assert(e.subrange(1, e.len() as int) =~= leb128(rest));
        assert(buf.subrange(pos + 1, pos + 1 + leb128(rest).len()) =~= buf.subrange(
            pos,
            pos + e.len(),
        ).subrange(1, e.len() as int));
        assert(n * p == (n % 128) * p + rest * (128 * p)) by (nonlinear_arith)
            requires
                n == 128 * rest + n % 128,
        ;
        lemma_varint_from_leb128(rest, buf, pos + 1, start, count + 1, acc + (n % 128) * p);
    } else {
        assert(leb128(n / 128) =~= Seq::<u8>::empty());
        assert(e =~= seq![(n % 128) as u8]);
    }
}

/// A power of 128 is positive.
pub proof fn lemma_pow128_positive(k: nat)
    ensures
        pow128(k) > 0,
    decreases k,
{
    if k > 0 {
        lemma_pow128_positive((k - 1) as nat);
    }
}

/// A larger exponent gives no smaller power of 128.
pub proof fn lemma_pow128_monotonic(j: nat, k: nat)
    requires
        j <= k,
    ensures
        pow128(j) <= pow128(k),
    decreases k,
{
    if j < k {
        lemma_pow128_monotonic(j, (k - 1) as nat);
        lemma_pow128_positive((k - 1) as nat);
    }
}

/// A length prefix that was written for a number from 1 up to 2^56 - 1 is
/// read back as that number, wherever in a buffer it stands, and the reading
/// ends right behind it.
pub proof fn lemma_leb128_round_trip(n: nat, buf: Seq<u8>, pos: int)
    requires
        0 < n < pow128(8),
        0 <= pos,
        pos + leb128(n).len() <= buf.len(),
        buf.subrange(pos, pos + leb128(n).len()) == leb128(n),
    ensures
        varint_at(buf, pos) == Ok::<(u64, int), BertError>((n as u64, pos + leb128(n).len())),
{
    assert(pow128(8) == 0x100_0000_0000_0000) by {
        reveal_with_fuel(pow128, 9);
    }
    assert(pow128(0) == 1);
    assert(n * pow128(0) == n) by (nonlinear_arith)
        requires
            pow128(0) == 1,
    ;
    lemma_varint_from_leb128(n, buf, pos, pos, 0, 0);
}

/// One record of a stream: the length prefix of the bytes of a term, then
/// those bytes, which begin with the magic byte.
pub open spec fn bert2_record(term: Term) -> Seq<u8> {
    leb128(encoding(term).len()) + encoding(term)
}

/// The records of the first `count` terms of `items`, one behind the other.
pub open spec fn bert2_records(items: Seq<Term>, count: nat) -> Seq<u8>
    decreases count,
{
    if count == 0 || count > items.len() {
        Seq::empty()
    } else {
        bert2_records(items, (count - 1) as nat) + bert2_record(items[count - 1])
    }
}

/// Whether a term describes a table: a tuple of the table's name, an atom,
/// and the list of its items.
pub open spec fn is_table(entry: Term) -> bool {
    entry matches Term::Tuple(parts) && parts.len() == 2 && parts[0] is Atom && parts[1] is List
}

/// The name of the table that `entry` describes.
pub open spec fn table_name(entry: Term) -> Seq<char> {
    entry->Tuple_0[0]->Atom_0
}

/// The items of the table that `entry` describes, as a stream of records.
pub open spec fn table_records(entry: Term) -> Seq<u8> {
    let items = entry->Tuple_0[1]->List_0;
    bert2_records(items, items.len())
}

/// Appends to `out` the record of `term`.
pub fn write_bert2_record(term: &BertTerm, out: &mut Vec<u8>)
    ensures
        final(out)@ == old(out)@ + bert2_record(term@),
{
    let mut bytes: Vec<u8> = Vec::new();
    BertWriter::new().write(term, &mut bytes);
    assert(bytes@ =~= encoding(term@));
    let prefix = usize_to_leb128(bytes.len());
    crate::wire::push_all(out, prefix.as_slice());
    crate::wire::push_all(out, bytes.as_slice());
    assert(out@ =~= old(out)@ + bert2_record(term@));
}

/// The name of the table that `entry` describes, and its items as a stream
/// of records; nothing where `entry` describes no table.
pub fn bert2_table(entry: &BertTerm) -> (r: Option<(String, Vec<u8>)>)
    ensures
        r is Some == is_table(entry@),
        r matches Some(table) ==> table.0@ == table_name(entry@) && table.1@ == table_records(
            entry@,
        ),
{
    match entry {
        BertTerm::Tuple(parts) => {
            proof {
                lemma_terms_view(parts@);
            }
            if parts.len() != 2 {
                return None;
            }
            match (&parts[0], &parts[1]) {
                (BertTerm::Atom(name), BertTerm::List(items)) => {
                    proof {
                        lemma_terms_view(items@);
                    }
                    let ghost views = terms_view(items@);
                    let mut records: Vec<u8> = Vec::new();
                    let mut i: usize = 0;
                    assert(records@ =~= bert2_records(views, 0));
                    while i < items.len()
                        invariant
                            i <= items.len(),
                            views == terms_view(items@),
                            views.len() == items.len(),
                            forall|j: int|
                                0 <= j < items.len() ==> (#[trigger] views[j]) == items[j]@,
                            records@ == bert2_records(views, i as nat),
                        decreases items.len() - i,
                    {
                        write_bert2_record(&items[i], &mut records);
                        i = i + 1;
                    }
                    Some((name.clone(), records))
                },
                _ => None,
            }
        },
        _ => None,
    }
}

} // verus!
