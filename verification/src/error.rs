//! What can go wrong while a buffer is decoded.

use vstd::prelude::*;
use vstd::pervasive::unreached;
use vstd::utf8::decode_utf8;
use vstd::utf8::encode_utf8;
use vstd::utf8::valid_utf8;
use crate::consts::BERT_MAGIC_NUMBER;
use crate::consts::DISK_LOG_MAGIC;
use crate::consts::DISK_LOG_OPENED;
use crate::consts::DISK_LOG_TERM_MAGIC;
use crate::text::decimal;
use crate::text::format_usize;
use crate::text::hex2;
use crate::text::hex8;
use crate::text::lemma_decimal_digits_ascii;
use crate::text::push_ascii;
use crate::text::push_hex2;
use crate::text::push_hex8;
use crate::text::push_str;
use crate::text::utf8_to_string;

verus! {

/// A decoding failure. Every variant carries the offset in the buffer at
/// which the failure was detected.
#[allow(inconsistent_fields)]
#[derive(Debug, Clone, Copy, PartialEq, Eq, Structural)]
pub enum BertError {
    /// The byte in front of a term is not the magic number.
    InvalidMagicNumber { offset: usize, actual: u8 },
    /// The tag byte names no known kind of term.
    InvalidTag(usize, u8),
    /// The text of an old-style float is no float literal.
    InvalidFloat(usize),
    /// The payload of a UTF-8 atom is not UTF-8.
    InvalidUTF8Atom(usize),
    /// The payload of a Latin-1 atom could not be decoded.
    InvalidLatin1Atom(usize),
    /// A length prefix runs over eight bytes.
    VarintTooLarge(usize),
    /// The buffer ends before a read is complete.
    NotEnoughData { offset: usize, needed: usize, available: usize },
    /// The first word of a disk log is wrong.
    InvalidDiskLogMagic { offset: usize, actual: u32 },
    /// The word in front of a disk-log record is wrong.
    InvalidDiskLogTermMagic { offset: usize, actual: u32 },
    /// The status word of a disk log is neither "opened" nor "closed".
    InvalidDiskLogOpenedStatus { offset: usize, actual: u32 },
}

/// What a decoding routine hands back.
pub type Result<T> = core::result::Result<T, BertError>;

/// The UTF-8 bytes of a text.
pub open spec fn text(s: &str) -> Seq<u8> {
    encode_utf8(s@)
}

/// A byte as it stands in a message: `0x` and two hexadecimal digits.
pub open spec fn byte_text(b: u8) -> Seq<u8> {
    text("0x") + hex2(b)
}

/// A word as it stands in a message: `0x` and eight hexadecimal digits.
pub open spec fn word_text(n: u32) -> Seq<u8> {
    text("0x") + hex8(n)
}

/// The message of an error, in UTF-8.
pub open spec fn message(e: BertError) -> Seq<u8> {
    match e {
        BertError::InvalidMagicNumber { offset, actual } => text("invalid magic number at offset ")
            + decimal(offset as int) + text(": expected ") + byte_text(BERT_MAGIC_NUMBER) + text(
            ", found ",
        ) + byte_text(actual),
        BertError::InvalidTag(offset, byte) => text("invalid tag at offset ") + decimal(
            offset as int,
        ) + text(": ") + byte_text(byte),
        BertError::InvalidFloat(offset) => text("invalid float at offset ") + decimal(
            offset as int,
        ),
        BertError::InvalidUTF8Atom(offset) => text(
            "UTF-8 atom is not correctly encoded at offset ",
        ) + decimal(offset as int),
        BertError::InvalidLatin1Atom(offset) => text(
            "Latin-1 atom is not correctly encoded at offset ",
        ) + decimal(offset as int),
        BertError::VarintTooLarge(offset) => text(
            "varint is too large (greater than 2^64-1) at offset ",
        ) + decimal(offset as int),
        BertError::NotEnoughData { offset, needed, available } => text(
            "no enough data available at offset ",
        ) + decimal(offset as int) + text(": needed ") + decimal(needed as int) + text(
            " bytes, only ",
        ) + decimal(available as int) + text(" remaining"),
        BertError::InvalidDiskLogMagic { offset, actual } => text("invalid disk_log magic at ")
            + decimal(offset as int) + text(": expected ") + word_text(DISK_LOG_MAGIC) + text(
            ", found ",
        ) + word_text(actual),
        BertError::InvalidDiskLogTermMagic { offset, actual } => text(
            "invalid disk_log term magic at offset ",
        ) + decimal(offset as int) + text(": expected ") + word_text(DISK_LOG_TERM_MAGIC) + text(
            ", found ",
        ) + word_text(actual),
        BertError::InvalidDiskLogOpenedStatus { offset, actual } => text(
            "invalid disk_log opened status at offset ",
        ) + decimal(offset as int) + text(": expected ") + word_text(DISK_LOG_OPENED) + text(
            ", found ",
        ) + word_text(actual),
    }
}

/// Appends the decimal text of `n` to `out`, which stays UTF-8.
fn push_number(out: &mut Vec<u8>, n: usize)
    requires
        valid_utf8(old(out)@),
    ensures
        final(out)@ == old(out)@ + decimal(n as int),
        valid_utf8(final(out)@),
{
    let digits = format_usize(n);
    proof {
        lemma_decimal_digits_ascii(n as nat);
    }
    push_ascii(out, digits.as_slice());
}

/// Appends a byte as it stands in a message to `out`, which stays UTF-8.
fn push_byte_text(out: &mut Vec<u8>, b: u8)
    requires
        valid_utf8(old(out)@),
    ensures
        final(out)@ == old(out)@ + byte_text(b),
        valid_utf8(final(out)@),
{
    push_str(out, "0x");
    let mut digits: Vec<u8> = Vec::new();
    push_hex2(&mut digits, b);
    assert(digits@ =~= hex2(b));
    push_ascii(out, digits.as_slice());
    assert(out@ =~= old(out)@ + byte_text(b));
}

/// Appends a word as it stands in a message to `out`, which stays UTF-8.
fn push_word_text(out: &mut Vec<u8>, n: u32)
    requires
        valid_utf8(old(out)@),
    ensures
        final(out)@ == old(out)@ + word_text(n),
        valid_utf8(final(out)@),
{
    push_str(out, "0x");
    let mut digits: Vec<u8> = Vec::new();
    push_hex8(&mut digits, n);
    assert(digits@ =~= hex8(n));
    push_ascii(out, digits.as_slice());
    assert(out@ =~= old(out)@ + word_text(n));
}

impl BertError {
    /// The message of the error, in UTF-8.
    pub fn message_bytes(&self) -> (out: Vec<u8>)
        ensures
            out@ == message(*self),
            valid_utf8(out@),
    {
        let mut out: Vec<u8> = Vec::new();
        assert(valid_utf8(out@));
        match *self {
            BertError::InvalidMagicNumber { offset, actual } => {
                push_str(&mut out, "invalid magic number at offset ");
                push_number(&mut out, offset);
                push_str(&mut out, ": expected ");
                push_byte_text(&mut out, BERT_MAGIC_NUMBER);
                push_str(&mut out, ", found ");
                push_byte_text(&mut out, actual);
            },
            BertError::InvalidTag(offset, byte) => {
                push_str(&mut out, "invalid tag at offset ");
                push_number(&mut out, offset);
                push_str(&mut out, ": ");
                push_byte_text(&mut out, byte);
            },
            BertError::InvalidFloat(offset) => {
                push_str(&mut out, "invalid float at offset ");
                push_number(&mut out, offset);
            },
            BertError::InvalidUTF8Atom(offset) => {
                push_str(&mut out, "UTF-8 atom is not correctly encoded at offset ");
                push_number(&mut out, offset);
            },
            BertError::InvalidLatin1Atom(offset) => {
                push_str(&mut out, "Latin-1 atom is not correctly encoded at offset ");
                push_number(&mut out, offset);
            },
            BertError::VarintTooLarge(offset) => {
                push_str(&mut out, "varint is too large (greater than 2^64-1) at offset ");
                push_number(&mut out, offset);
            },
            BertError::NotEnoughData { offset, needed, available } => {
                push_str(&mut out, "no enough data available at offset ");
                push_number(&mut out, offset);
                push_str(&mut out, ": needed ");
                push_number(&mut out, needed);
                push_str(&mut out, " bytes, only ");
                push_number(&mut out, available);
                push_str(&mut out, " remaining");
            },
            BertError::InvalidDiskLogMagic { offset, actual } => {
                push_str(&mut out, "invalid disk_log magic at ");
                push_number(&mut out, offset);
                push_str(&mut out, ": expected ");
                push_word_text(&mut out, DISK_LOG_MAGIC);
                push_str(&mut out, ", found ");
                push_word_text(&mut out, actual);
            },
            BertError::InvalidDiskLogTermMagic { offset, actual } => {
                push_str(&mut out, "invalid disk_log term magic at offset ");
                push_number(&mut out, offset);
                push_str(&mut out, ": expected ");
                push_word_text(&mut out, DISK_LOG_TERM_MAGIC);
                push_str(&mut out, ", found ");
                push_word_text(&mut out, actual);
            },
            BertError::InvalidDiskLogOpenedStatus { offset, actual } => {
                push_str(&mut out, "invalid disk_log opened status at offset ");
                push_number(&mut out, offset);
                push_str(&mut out, ": expected ");
                push_word_text(&mut out, DISK_LOG_OPENED);
                push_str(&mut out, ", found ");
                push_word_text(&mut out, actual);
            },
        }
        assert(out@ =~= message(*self));
        out
    }

    /// The message of the error.
    pub fn to_string(&self) -> (s: String)
        ensures
            s@ == decode_utf8(message(*self)),
    {
        match utf8_to_string(self.message_bytes()) {
            Some(s) => s,
            None => unreached(),
        }
    }
}

} // verus!
