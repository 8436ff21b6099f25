//! Integers of any size, held as a sign and base-256 digits.

use vstd::prelude::*;
use crate::text::decimal;
use crate::text::decimal_digits;

verus! {

/// The number that `digits` spell in base 256, least significant digit first.
pub open spec fn le_value(digits: Seq<u8>) -> nat
    decreases digits.len(),
{
    if digits.len() == 0 {
        0
    } else {
        digits[0] as nat + 256 * le_value(digits.drop_first())
    }
}

/// The digits of `n` in base 256, least significant first, with no digit for
/// zero and no zero as the last digit.
pub open spec fn le_digits(n: nat) -> Seq<u8>
    decreases n,
{
    if n == 0 {
        Seq::empty()
    } else {
        seq![(n % 256) as u8] + le_digits(n / 256)
    }
}

/// A digit sequence without a zero in the most significant place.
pub open spec fn no_leading_zero(digits: Seq<u8>) -> bool {
    digits.len() == 0 || digits.last() != 0
}

/// The number with the given magnitude, negated where `negative` is set.
pub open spec fn signed(negative: bool, magnitude: nat) -> int {
    if negative {
        -(magnitude as int)
    } else {
        magnitude as int
    }
}

/// The magnitude of a number.
pub open spec fn magnitude_of(n: int) -> nat {
    if n < 0 {
        (-n) as nat
    } else {
        n as nat
    }
}

/// The digits of a number are read back as the number.
pub proof fn lemma_le_digits_value(n: nat)
    ensures
        le_value(le_digits(n)) == n,
        no_leading_zero(le_digits(n)),
    decreases n,
{
    if n > 0 {
        lemma_le_digits_value(n / 256);
        let d = le_digits(n);
        assert(d.drop_first() =~= le_digits(n / 256));
        if n / 256 == 0 {
            assert(d =~= seq![(n % 256) as u8]);
        } else {
            assert(d.last() == le_digits(n / 256).last());
        }
    }
}

/// A digit sequence that ends in a non-zero digit spells a positive number.
pub proof fn lemma_le_value_positive(digits: Seq<u8>)
    requires
        digits.len() > 0,
        digits.last() != 0,
    ensures
        le_value(digits) > 0,
    decreases digits.len(),
{
    if digits.len() > 1 {
        let rest = digits.drop_first();
        assert(rest.last() == digits.last());
        lemma_le_value_positive(rest);
    }
}

/// Only one digit sequence without a leading zero spells a given number.
pub proof fn lemma_le_value_digits(digits: Seq<u8>)
    requires
        no_leading_zero(digits),
    ensures
        le_digits(le_value(digits)) == digits,
    decreases digits.len(),
{
    if digits.len() > 0 {
        let rest = digits.drop_first();
        lemma_le_value_positive(digits);
        if rest.len() > 0 {
            assert(rest.last() == digits.last());
        }
        lemma_le_value_digits(rest);
        let n = le_value(digits);
        let r = le_value(rest);
        assert(n == digits[0] as nat + 256 * r);
        assert(n % 256 == digits[0] as nat && n / 256 == r) by (nonlinear_arith)
            requires
                n == digits[0] as nat + 256 * r,
                digits[0] < 256,
        ;
        assert(le_digits(n) =~= seq![digits[0]] + rest);
        assert(seq![digits[0]] + rest =~= digits);
    }
}

/// Zeros in the most significant places do not change the number.
pub proof fn lemma_le_value_strip(digits: Seq<u8>, keep: int)
    requires
        0 <= keep <= digits.len(),
        forall|i: int| keep <= i < digits.len() ==> digits[i] == 0,
    ensures
        le_value(digits.subrange(0, keep)) == le_value(digits),
    decreases digits.len(),
{
    if digits.len() > 0 {
        let rest = digits.drop_first();
        if keep == 0 {
            lemma_le_value_strip(rest, 0);
            assert(rest.subrange(0, 0) =~= digits.subrange(0, 0));
        } else {
            lemma_le_value_strip(rest, keep - 1);
            assert(digits.subrange(0, keep).drop_first() =~= rest.subrange(0, keep - 1));
        }
    } else {
        assert(digits.subrange(0, keep) =~= digits);
    }
}

/// An integer of any size. It is held as a sign and the digits of its
/// magnitude in base 256, least significant first, so that equal numbers are
/// equal values: no zero stands in the most significant place, and zero has
/// no digits and no sign.
#[derive(Debug, PartialEq, Eq)]
pub struct BigInt {
    negative: bool,
    magnitude: Vec<u8>,
}

impl View for BigInt {
    type V = int;

    closed spec fn view(&self) -> int {
        signed(self.negative, le_value(self.magnitude@))
    }
}

impl Clone for BigInt {
    fn clone(&self) -> (n: BigInt)
        ensures
            n@ == self@,
    {
        proof {
            use_type_invariant(self);
        }
        BigInt { negative: self.negative, magnitude: self.magnitude.clone() }
    }
}

impl BigInt {
    #[verifier::type_invariant]
    spec fn well_formed(self) -> bool {
        &&& no_leading_zero(self.magnitude@)
        &&& self.magnitude@.len() == 0 ==> !self.negative
    }

    /// The number with the magnitude that `digits` spell in base 256, least
    /// significant digit first, negated where `negative` is set.
    pub fn from_bytes_le(negative: bool, digits: &[u8]) -> (n: BigInt)
        ensures
            n@ == signed(negative, le_value(digits@)),
    {
        let mut keep: usize = digits.len();
        while keep > 0 && digits[keep - 1] == 0
            invariant
                keep <= digits.len(),
                forall|i: int| keep <= i < digits@.len() ==> digits@[i] == 0,
            decreases keep,
        {
            keep = keep - 1;
        }
        let mut magnitude: Vec<u8> = Vec::new();
        let mut i: usize = 0;
        while i < keep
            invariant
                i <= keep <= digits.len(),
                magnitude@ == digits@.subrange(0, i as int),
            decreases keep - i,
        {
            magnitude.push(digits[i]);
            i = i + 1;
            assert(magnitude@ =~= digits@.subrange(0, i as int));
        }
        proof {
            lemma_le_value_strip(digits@, keep as int);
        }
        BigInt { negative: negative && keep > 0, magnitude }
    }

    /// Whether the number is below zero.
    pub fn is_negative(&self) -> (b: bool)
        ensures
            b == (self@ < 0),
    {
        proof {
            use_type_invariant(self);
            if self.magnitude@.len() > 0 {
                lemma_le_value_positive(self.magnitude@);
            }
        }
        self.negative
    }

    /// The digits of the magnitude in base 256, least significant first,
    /// without a zero in the most significant place; zero has no digits.
    pub fn magnitude(&self) -> (digits: &Vec<u8>)
        ensures
            digits@ == le_digits(magnitude_of(self@)),
    {
        proof {
            use_type_invariant(self);
            lemma_le_value_digits(self.magnitude@);
        }
        &self.magnitude
    }

    /// The sign and the digits of the magnitude, least significant first.
    /// Zero is the one digit 0.
    pub fn to_bytes_le(&self) -> (r: (bool, Vec<u8>))
        ensures
            r.0 == (self@ < 0),
            r.1@ == wire_digits(self@),
    {
        let negative: bool = self.is_negative();
        let digits: &Vec<u8> = self.magnitude();
        let mut bytes: Vec<u8> = Vec::new();
        if digits.len() == 0 {
            proof {
                lemma_le_digits_value(magnitude_of(self@));
            }
            bytes.push(0);
            assert(bytes@ =~= seq![0u8]);
        } else {
            let mut i: usize = 0;
            while i < digits.len()
                invariant
                    i <= digits.len(),
                    bytes@ == digits@.subrange(0, i as int),
                decreases digits.len() - i,
            {
                bytes.push(digits[i]);
                i = i + 1;
                assert(bytes@ =~= digits@.subrange(0, i as int));
            }
            assert(bytes@ =~= digits@);
        }
        (negative, bytes)
    }

    /// The decimal text of the number, with a minus sign in front of a
    /// negative one.
    pub fn to_decimal(&self) -> (text: Vec<u8>)
        ensures
            text@ == decimal(self@),
    {
        let negative: bool = self.is_negative();
        let digits: Vec<u8> = format_magnitude(self.magnitude().as_slice());
        proof {
            lemma_le_digits_value(magnitude_of(self@));
        }
        if negative {
            let mut text: Vec<u8> = Vec::new();
            text.push(45);
            let mut digits = digits;
            text.append(&mut digits);
            assert(text@ =~= decimal(self@));
            text
        } else {
            digits
        }
    }
}

/// The digits that stand for `n` on the wire: those of its magnitude, least
/// significant first, and the single digit 0 for zero.
pub open spec fn wire_digits(n: int) -> Seq<u8> {
    if n == 0 {
        seq![0u8]
    } else {
        le_digits(magnitude_of(n))
    }
}

/// `num_bigint::BigUint::from_bytes_le` and the `to_string` of its result:
/// the decimal text, without leading zeros, of the number that `magnitude`
/// spells in base 256, least significant digit first.
#[verifier::external_body]
fn format_magnitude(magnitude: &[u8]) -> (text: Vec<u8>)
    ensures
        text@ == decimal_digits(le_value(magnitude@)),
{
    num_bigint::BigUint::from_bytes_le(magnitude).to_string().into_bytes()
}

} // verus!
