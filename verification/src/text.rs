//! Text: the decimal and hexadecimal digits of integers, Latin-1 and UTF-8.

use vstd::prelude::*;
use vstd::utf8::decode_utf8;
use vstd::utf8::encode_utf8;
use vstd::utf8::valid_utf8;
use encoding::Encoding;

verus! {

/// The ASCII digits of `n` in base ten, without leading zeros.
pub open spec fn decimal_digits(n: nat) -> Seq<u8>
    decreases n,
{
    if n < 10 {
        seq![(48 + n) as u8]
    } else {
        decimal_digits(n / 10).push((48 + n % 10) as u8)
    }
}

/// The ASCII text of `n` in base ten, with a minus sign in front of a
/// negative number.
pub open spec fn decimal(n: int) -> Seq<u8> {
    if n < 0 {
        seq![45u8] + decimal_digits((-n) as nat)
    } else {
        decimal_digits(n as nat)
    }
}

/// The ASCII digit of `n` in base sixteen, in lower case.
pub open spec fn hex_digit(n: nat) -> u8 {
    if n < 10 {
        (48 + n) as u8
    } else {
        (87 + n) as u8
    }
}

/// The two hexadecimal digits of a byte.
pub open spec fn hex2(b: u8) -> Seq<u8> {
    seq![hex_digit(b as nat / 16), hex_digit(b as nat % 16)]
}

/// `itoa::Buffer::format` on an `i128`: the decimal text of `n`, with a
/// minus sign in front of a negative number and no leading zeros.
#[verifier::external_body]
pub(crate) fn format_int(n: i128) -> (text: Vec<u8>)
    ensures
        text@ == decimal(n as int),
{
    itoa::Buffer::new().format(n).as_bytes().to_vec()
}

/// The decimal text of a 32-bit integer.
pub fn format_i32(n: i32) -> (text: Vec<u8>)
    ensures
        text@ == decimal(n as int),
{
    format_int(n as i128)
}

/// The decimal text of an offset or a length.
pub fn format_usize(n: usize) -> (text: Vec<u8>)
    ensures
        text@ == decimal(n as int),
{
    format_int(n as i128)
}

/// Decimal digits are ASCII.
pub proof fn lemma_decimal_digits_ascii(n: nat)
    ensures
        forall|i: int| 0 <= i < decimal_digits(n).len() ==> decimal_digits(n)[i] < 128,
    decreases n,
{
    if n >= 10 {
        lemma_decimal_digits_ascii(n / 10);
        let front = decimal_digits(n / 10);
        assert forall|i: int| 0 <= i < decimal_digits(n).len() implies decimal_digits(n)[i]
            < 128 by {
            if i < front.len() {
                assert(decimal_digits(n)[i] == front[i]);
            }
        }
    }
}

/// The four hexadecimal digits of a 16-bit number.
pub open spec fn hex4(n: u16) -> Seq<u8> {
    hex2((n / 256) as u8) + hex2((n % 256) as u8)
}

/// The eight hexadecimal digits of a 32-bit number.
pub open spec fn hex8(n: u32) -> Seq<u8> {
    hex4((n / 0x1_0000) as u16) + hex4((n % 0x1_0000) as u16)
}

/// Appends the eight hexadecimal digits of `n` to `out`.
pub fn push_hex8(out: &mut Vec<u8>, n: u32)
    ensures
        final(out)@ == old(out)@ + hex8(n),
{
    let high: u16 = (n / 0x1_0000) as u16;
    let low: u16 = (n % 0x1_0000) as u16;
    push_hex2(out, (high / 256) as u8);
    push_hex2(out, (high % 256) as u8);
    push_hex2(out, (low / 256) as u8);
    push_hex2(out, (low % 256) as u8);
    assert(out@ =~= old(out)@ + hex8(n));
}

/// The hexadecimal digit of a number below sixteen.
pub fn hex_digit_of(n: u8) -> (d: u8)
    requires
        n < 16,
    ensures
        d == hex_digit(n as nat),
{
    if n < 10 {
        48 + n
    } else {
        87 + n
    }
}

/// Appends the two hexadecimal digits of `b` to `out`.
pub fn push_hex2(out: &mut Vec<u8>, b: u8)
    ensures
        final(out)@ == old(out)@ + hex2(b),
{
    out.push(hex_digit_of(b / 16));
    out.push(hex_digit_of(b % 16));
    assert(out@ =~= old(out)@ + hex2(b));
}

/// The characters of a Latin-1 text: each byte is the code point of one.
pub open spec fn latin1(bytes: Seq<u8>) -> Seq<char> {
    Seq::new(bytes.len(), |i: int| bytes[i] as char)
}

/// Bytes below 128 are UTF-8 as they stand, and spell the characters that
/// they spell in Latin-1.
pub proof fn lemma_ascii_is_utf8(bytes: Seq<u8>)
    requires
        forall|i: int| 0 <= i < bytes.len() ==> bytes[i] < 128,
    ensures
        valid_utf8(bytes),
        decode_utf8(bytes) == latin1(bytes),
{
    let chars = latin1(bytes);
    assert(vstd::utf8::is_ascii_chars(chars));
    vstd::utf8::is_ascii_chars_encode_utf8(chars);
    assert(encode_utf8(chars) =~= bytes);
    vstd::utf8::encode_utf8_valid_utf8(chars);
    vstd::utf8::encode_utf8_decode_utf8(chars);
}

/// `String::from_utf8`: the string that `bytes` encode in UTF-8, or nothing
/// where they are not UTF-8.
#[verifier::external_body]
pub(crate) fn utf8_to_string(bytes: Vec<u8>) -> (r: Option<String>)
    ensures
        r is Some == valid_utf8(bytes@),
        r matches Some(s) ==> s@ == decode_utf8(bytes@),
{
    String::from_utf8(bytes).ok()
}

/// `encoding::all::ISO_8859_1.decode` with `DecoderTrap::Strict`: the string
/// whose characters have the bytes as their code points. The decoder maps
/// every byte, so it never fails.
#[verifier::external_body]
pub(crate) fn latin1_to_string(bytes: &[u8]) -> (r: Option<String>)
    ensures
        r is Some,
        r matches Some(s) ==> s@ == latin1(bytes@),
{
    encoding::all::ISO_8859_1.decode(bytes, encoding::DecoderTrap::Strict).ok()
}

/// Appends the UTF-8 bytes of `text` to `out`, which stays UTF-8.
pub fn push_str(out: &mut Vec<u8>, text: &str)
    requires
        valid_utf8(old(out)@),
    ensures
        final(out)@ == old(out)@ + encode_utf8(text@),
        valid_utf8(final(out)@),
{
    proof {
        vstd::utf8::encode_utf8_valid_utf8(text@);
        vstd::utf8::valid_utf8_concat(old(out)@, encode_utf8(text@));
    }
    crate::wire::push_all(out, text.as_bytes());
}

/// Appends ASCII bytes to `out`, which stays UTF-8.
pub fn push_ascii(out: &mut Vec<u8>, bytes: &[u8])
    requires
        valid_utf8(old(out)@),
        forall|i: int| 0 <= i < bytes@.len() ==> bytes@[i] < 128,
    ensures
        final(out)@ == old(out)@ + bytes@,
        valid_utf8(final(out)@),
{
    proof {
        lemma_ascii_is_utf8(bytes@);
        vstd::utf8::valid_utf8_concat(old(out)@, bytes@);
    }
    crate::wire::push_all(out, bytes);
}

/// A Latin-1 text takes at most two bytes for each character in UTF-8.
pub proof fn lemma_latin1_utf8_len(bytes: Seq<u8>)
    ensures
        encode_utf8(latin1(bytes)).len() <= 2 * bytes.len(),
    decreases bytes.len(),
{
    if bytes.len() > 0 {
        let chars = latin1(bytes);
        assert(chars.drop_first() =~= latin1(bytes.drop_first()));
        lemma_latin1_utf8_len(bytes.drop_first());
        assert(chars[0] as u32 == bytes[0] as u32);
    }
}

} // verus!
