//! The fixed bytes and words of the wire format.

use vstd::prelude::*;

verus! {

/// Leading byte of every top-level term.
pub const BERT_MAGIC_NUMBER: u8 = 131;

/// Tag of an integer in one unsigned byte.
pub const SMALL_INTEGER_EXT: u8 = 97;

/// Tag of an integer in four bytes.
pub const INTEGER_EXT: u8 = 98;

/// Tag of a float that is written as text.
pub const FLOAT_EXT: u8 = 99;

/// Tag of a Latin-1 atom with a length of two bytes.
pub const ATOM_EXT: u8 = 100;

/// Tag of a Latin-1 atom with a length of one byte.
pub const SMALL_ATOM_EXT: u8 = 115;

/// Tag of a tuple with an arity of one byte.
pub const SMALL_TUPLE_EXT: u8 = 104;

/// Tag of a tuple with an arity of four bytes.
pub const LARGE_TUPLE_EXT: u8 = 105;

/// Tag of the empty list.
pub const NIL_EXT: u8 = 106;

/// Tag of a string: a list of bytes with a length of two bytes.
pub const STRING_EXT: u8 = 107;

/// Tag of a list.
pub const LIST_EXT: u8 = 108;

/// Tag of a binary.
pub const BINARY_EXT: u8 = 109;

/// Tag of a big integer with a digit count of one byte.
pub const SMALL_BIG_EXT: u8 = 110;

/// Tag of a big integer with a digit count of four bytes.
pub const LARGE_BIG_EXT: u8 = 111;

/// Tag of a UTF-8 atom with a length of two bytes.
pub const ATOM_UTF8_EXT: u8 = 118;

/// Tag of a UTF-8 atom with a length of one byte.
pub const SMALL_ATOM_UTF8_EXT: u8 = 119;

/// Tag of a float that is written as its eight IEEE 754 bytes.
pub const NEW_FLOAT_EXT: u8 = 70;

/// Tag of a map.
pub const MAP_EXT: u8 = 116;

/// First word of a disk log.
pub const DISK_LOG_MAGIC: u32 = 0x01020304;

/// Status word of a disk log that was left open.
pub const DISK_LOG_OPENED: u32 = 0x06070809;

/// Status word of a disk log that was closed properly.
pub const DISK_LOG_CLOSED: u32 = 0x63584d0b;

/// Word in front of every record of a disk log.
pub const DISK_LOG_TERM_MAGIC: u32 = 0x62574c41;

/// The version of the library.
pub const VERSION: &'static str = "0.9.3";

} // verus!
